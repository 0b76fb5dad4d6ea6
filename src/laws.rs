use vstd::prelude::*;
use crate::breaker::{best, chosen, layout, line_cost, lines_from, scan};
use crate::text::{lemma_padded_lower, line_len, Word};

verus! {

/// Whether `spans` cuts the words `i..n` into consecutive non-empty lines.
pub open spec fn is_partition(n: int, i: int, spans: Seq<int>) -> bool
    decreases spans.len(),
{
    if spans.len() == 0 {
        i == n
    } else {
        spans[0] >= 1 && i + spans[0] <= n && is_partition(n, i + spans[0], spans.drop_first())
    }
}

/// The total cost of the lines that `spans` cuts from word `i` on.
pub open spec fn partition_cost(ws: Seq<Word>, width: int, last: bool, i: int, spans: Seq<int>) -> int
    decreases spans.len(),
{
    if spans.len() == 0 {
        0
    } else {
        line_cost(ws, width, last, i, spans[0]) + partition_cost(
            ws,
            width,
            last,
            i + spans[0],
            spans.drop_first(),
        )
    }
}

/// Whether one of the lines that `spans` cuts from word `i` on is longer than
/// `width`.
pub open spec fn overflows(ws: Seq<Word>, width: int, i: int, spans: Seq<int>) -> bool
    decreases spans.len(),
{
    if spans.len() == 0 {
        false
    } else {
        line_len(ws, i, i + spans[0]) > width || overflows(
            ws,
            width,
            i + spans[0],
            spans.drop_first(),
        )
    }
}

pub(crate) proof fn lemma_scan_span(ws: Seq<Word>, width: int, last: bool, i: int, j: int)
    requires
        0 <= i,
        1 <= j,
        i + j <= ws.len(),
    ensures
        1 <= scan(ws, width, last, i, j).1 <= j,
        scan(ws, width, last, i, j).0 == line_cost(ws, width, last, i, scan(ws, width, last, i, j).1)
            + best(ws, width, last, i + scan(ws, width, last, i, j).1).0,
    decreases j,
{
    if j > 1 {
        lemma_scan_span(ws, width, last, i, j - 1);
    }
}

proof fn lemma_scan_min(ws: Seq<Word>, width: int, last: bool, i: int, j: int, k: int)
    requires
        0 <= i,
        1 <= k <= j,
        i + j <= ws.len(),
    ensures
        scan(ws, width, last, i, j).0 <= line_cost(ws, width, last, i, k) + best(
            ws,
            width,
            last,
            i + k,
        ).0,
    decreases j,
{
    if j > k {
        lemma_scan_min(ws, width, last, i, j - 1, k);
    }
}

/// The chosen spans cut the words from `i` into lines, at the optimal cost.
pub(crate) proof fn lemma_chosen_partition(ws: Seq<Word>, width: int, last: bool, i: int)
    requires
        0 <= i <= ws.len(),
    ensures
        is_partition(ws.len() as int, i, chosen(ws, width, last, i)),
        partition_cost(ws, width, last, i, chosen(ws, width, last, i)) == best(
            ws,
            width,
            last,
            i,
        ).0,
    decreases ws.len() - i,
{
    if i < ws.len() {
        lemma_scan_span(ws, width, last, i, ws.len() - i);
        let k = best(ws, width, last, i).1;
        lemma_chosen_partition(ws, width, last, i + k);
        let rest = chosen(ws, width, last, i + k);
        assert((seq![k] + rest).drop_first() == rest);
    }
}

proof fn lemma_best_below(ws: Seq<Word>, width: int, last: bool, i: int, spans: Seq<int>)
    requires
        0 <= i,
        is_partition(ws.len() as int, i, spans),
    ensures
        best(ws, width, last, i).0 <= partition_cost(ws, width, last, i, spans),
    decreases spans.len(),
{
    if spans.len() > 0 {
        let k = spans[0];
        lemma_scan_min(ws, width, last, i, ws.len() - i, k);
        lemma_best_below(ws, width, last, i + k, spans.drop_first());
    }
}

proof fn lemma_line_cost_nonneg(ws: Seq<Word>, width: int, last: bool, i: int, j: int)
    requires
        0 <= width,
        0 <= i,
        1 <= j,
        i + j <= ws.len(),
    ensures
        0 <= line_cost(ws, width, last, i, j),
        line_len(ws, i, i + j) > width ==> line_cost(ws, width, last, i, j) >= 1_000_000,
{
    lemma_padded_lower(ws, i, i + j - 1);
    let len = line_len(ws, i, i + j);
    if len > width {
        assert(1_000_000 * (len - width) >= 1_000_000) by (nonlinear_arith)
            requires
                len > width,
        ;
    } else {
        let d = width - len;
        assert(d * d * d >= 0) by (nonlinear_arith)
            requires
                d >= 0,
        ;
    }
}

pub(crate) proof fn lemma_cost_of_overflow(ws: Seq<Word>, width: int, last: bool, i: int, spans: Seq<int>)
    requires
        0 <= width,
        0 <= i,
        is_partition(ws.len() as int, i, spans),
    ensures
        partition_cost(ws, width, last, i, spans) >= 0,
        overflows(ws, width, i, spans) ==> partition_cost(ws, width, last, i, spans) >= 1_000_000,
    decreases spans.len(),
{
    if spans.len() > 0 {
        lemma_line_cost_nonneg(ws, width, last, i, spans[0]);
        lemma_cost_of_overflow(ws, width, last, i + spans[0], spans.drop_first());
    }
}

proof fn lemma_lines_flatten(ws: Seq<Word>, spans: Seq<int>, i: int)
    requires
        0 <= i,
        is_partition(ws.len() as int, i, spans),
    ensures
        lines_from(ws, spans, i).flatten() == ws.subrange(i, ws.len() as int),
        forall|k: int|
            0 <= k < lines_from(ws, spans, i).len() ==> #[trigger] lines_from(
                ws,
                spans,
                i,
            )[k].len() >= 1,
    decreases spans.len(),
{
    if spans.len() > 0 {
        let s = spans[0];
        let rest = lines_from(ws, spans.drop_first(), i + s);
        lemma_lines_flatten(ws, spans.drop_first(), i + s);
        let all = lines_from(ws, spans, i);
        assert(all.drop_first() == rest);
        assert(all.first() == ws.subrange(i, i + s));
        assert(ws.subrange(i, i + s) + ws.subrange(i + s, ws.len() as int) == ws.subrange(
            i,
            ws.len() as int,
        ));
        assert forall|k: int| 0 <= k < all.len() implies #[trigger] all[k].len() >= 1 by {
            if k > 0 {
                assert(all[k] == rest[k - 1]);
            }
        }
    } else {
        assert(ws.subrange(i, ws.len() as int) == Seq::<Word>::empty());
    }
}

/// Every word of a paragraph lands in exactly one line of its layout, in
/// order: the lines, joined, give back the paragraph, and none is empty.
pub proof fn lemma_layout_covers(ws: Seq<Word>, width: int, last: bool)
    ensures
        layout(ws, width, last).flatten() == ws,
        forall|k: int|
            0 <= k < layout(ws, width, last).len() ==> #[trigger] layout(ws, width, last)[k].len()
                >= 1,
{
    lemma_chosen_partition(ws, width, last, 0);
    lemma_lines_flatten(ws, chosen(ws, width, last, 0), 0);
    assert(ws.subrange(0, ws.len() as int) == ws);
}

/// The chosen lines cover the paragraph, and no other way of cutting it into
/// lines costs less.
pub proof fn lemma_layout_optimal(ws: Seq<Word>, width: int, last: bool, spans: Seq<int>)
    requires
        is_partition(ws.len() as int, 0, spans),
    ensures
        is_partition(ws.len() as int, 0, chosen(ws, width, last, 0)),
        partition_cost(ws, width, last, 0, chosen(ws, width, last, 0)) <= partition_cost(
            ws,
            width,
            last,
            0,
            spans,
        ),
{
    lemma_chosen_partition(ws, width, last, 0);
    lemma_best_below(ws, width, last, 0, spans);
}

/// Where some cutting of the paragraph into lines has no line longer than the
/// width and costs less than the penalty of a single overflowing character,
/// the chosen lines have no line longer than the width either.
pub proof fn lemma_prefers_fitting(ws: Seq<Word>, width: int, last: bool, fit: Seq<int>)
    requires
        0 <= width,
        is_partition(ws.len() as int, 0, fit),
        !overflows(ws, width, 0, fit),
        partition_cost(ws, width, last, 0, fit) < 1_000_000,
    ensures
        !overflows(ws, width, 0, chosen(ws, width, last, 0)),
{
    lemma_layout_optimal(ws, width, last, fit);
    lemma_cost_of_overflow(ws, width, last, 0, chosen(ws, width, last, 0));
}

} // verus!
