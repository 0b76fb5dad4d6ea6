use vstd::prelude::*;
use crate::breaker::{best, chosen, layout, line_cost, lines_from, scan};
use crate::laws::{lemma_chosen_partition, lemma_cost_of_overflow, lemma_scan_span};
use crate::render::{padded_text, render_line, render_lines, spaces, trim_spaces};
use crate::text::{lemma_padded_lower, lemma_padded_split, line_len, padded, Word};
use crate::tokenize::{
    initial_state, paragraphs_of, scan_text, step, words_view, ScanState, Tagged,
};

verus! {

/// The state after reading `t` from `st`.
pub open spec fn run(st: ScanState, t: Seq<char>) -> ScanState
    decreases t.len(),
{
    if t.len() == 0 {
        st
    } else {
        step(run(st, t.drop_last()), t.last())
    }
}

/// A word that a rendered line can hold and the tokenizer reads back whole:
/// not empty, with neither a space nor a line feed in it.
pub open spec fn plain_word(w: Seq<char>) -> bool {
    w.len() > 0 && forall|i: int| 0 <= i < w.len() ==> w[i] != ' ' && w[i] != '\n'
}

/// The first `k` words of `ws`, tagged as not ending a sentence.
pub open spec fn untagged(ws: Seq<Word>, k: int) -> Seq<Tagged> {
    Seq::new(k as nat, |i: int| (ws[i]@.0, false))
}

proof fn lemma_scan_concat(s: Seq<char>, t: Seq<char>)
    ensures
        scan_text(s + t) == run(scan_text(s), t),
    decreases t.len(),
{
    if t.len() == 0 {
        assert(s + t == s);
    } else {
        lemma_scan_concat(s, t.drop_last());
        assert((s + t).drop_last() == s + t.drop_last());
        assert((s + t).last() == t.last());
    }
}

proof fn lemma_run_word(st: ScanState, w: Seq<char>)
    requires
        forall|i: int| 0 <= i < w.len() ==> w[i] != ' ' && w[i] != '\n',
    ensures
        run(st, w) == (ScanState { cur: st.cur + w, ..st }),
    decreases w.len(),
{
    if w.len() == 0 {
        assert(st.cur + w == st.cur);
    } else {
        lemma_run_word(st, w.drop_last());
        assert((st.cur + w.drop_last()).push(w.last()) == st.cur + w);
    }
}

proof fn lemma_trim_tail(x: Seq<char>, k: int)
    requires
        0 <= k,
    ensures
        trim_spaces(x + spaces(k)) == trim_spaces(x),
    decreases k,
{
    if k == 0 {
        assert(x + spaces(0) == x);
    } else {
        lemma_trim_tail(x, k - 1);
        assert((x + spaces(k)).drop_last() == x + spaces(k - 1));
    }
}

proof fn lemma_padded_text_views(a: Seq<Word>, b: Seq<Word>)
    requires
        a.len() == b.len(),
        forall|k: int| 0 <= k < a.len() ==> a[k]@ == b[k]@,
    ensures
        padded_text(a) == padded_text(b),
    decreases a.len(),
{
    if a.len() > 0 {
        lemma_padded_text_views(a.drop_last(), b.drop_last());
    }
}

proof fn lemma_padded_views(a: Seq<Word>, b: Seq<Word>, i: int, j: int)
    requires
        0 <= i,
        j <= a.len() == b.len(),
        forall|k: int| i <= k < j ==> a[k]@ == b[k]@,
    ensures
        padded(a, i, j) == padded(b, i, j),
    decreases j - i,
{
    if j > i {
        lemma_padded_views(a, b, i, j - 1);
    }
}

proof fn lemma_padded_text_step(ws: Seq<Word>, k: int)
    requires
        0 <= k < ws.len(),
    ensures
        padded_text(ws.take(k + 1)) == padded_text(ws.take(k)) + ws[k]@.0 + spaces(
            crate::text::gap(ws[k]@),
        ),
{
    assert(ws.take(k + 1).drop_last() == ws.take(k));
}

/// The state after reading the first `k` words of a rendered line of words
/// that do not end sentences, each with its space.
proof fn lemma_scan_words(ws: Seq<Word>, k: int)
    requires
        1 <= k <= ws.len(),
        forall|i: int| 0 <= i < ws.len() ==> !(#[trigger] ws[i]@).1 && plain_word(ws[i]@.0),
    ensures
        scan_text(padded_text(ws.take(k))) == (ScanState {
            paras: seq![],
            para: untagged(ws, k - 1),
            pending: Some(ws[k - 1]@.0),
            cur: seq![],
            many_spaces: false,
            breaks: 0,
        }),
    decreases k,
{
    let w = ws[k - 1]@.0;
    let _ = ws[k - 1]@;
    lemma_padded_text_step(ws, k - 1);
    let s = padded_text(ws.take(k - 1));
    assert(spaces(1) == seq![' ']);
    assert(s + w + seq![' '] == s + (w + seq![' ']));
    lemma_scan_concat(s, w + seq![' ']);
    assert((w + seq![' ']).drop_last() == w);
    let before = if k == 1 {
        initial_state()
    } else {
        lemma_scan_words(ws, k - 1);
        scan_text(s)
    };
    if k == 1 {
        assert(ws.take(0) == Seq::<Word>::empty());
    }
    lemma_run_word(before, w);
    assert(before.cur + w == w);
    if k > 1 {
        let _ = ws[k - 2]@;
        assert(untagged(ws, k - 2).push((ws[k - 2]@.0, false)) == untagged(ws, k - 1));
    } else {
        assert(untagged(ws, 0) == Seq::<Tagged>::empty());
    }
}

/// A paragraph whose words all fit on one line of the width is laid out on
/// that one line, whatever the width beyond that.
pub proof fn lemma_fitting_line_kept(ws: Seq<Word>, width: int, last: bool)
    requires
        ws.len() >= 1,
        0 <= width,
        line_len(ws, 0, ws.len() as int) <= width,
    ensures
        layout(ws, width, last) == seq![ws],
{
    let n = ws.len() as int;
    let big = line_len(ws, 0, n);
    let cn = line_cost(ws, width, last, 0, n);
    let dn = width - big;
    assert(0 <= dn * dn * dn) by (nonlinear_arith)
        requires
            dn >= 0,
    ;
    assert(0 <= cn <= dn * dn * dn);
    assert forall|j: int| 1 <= j < n implies cn < line_cost(ws, width, last, 0, j) + best(
        ws,
        width,
        last,
        j,
    ).0 by {
        lemma_padded_split(ws, 0, j, n - 1);
        lemma_padded_lower(ws, j, n - 1);
        lemma_padded_lower(ws, 0, j - 1);
        let lj = line_len(ws, 0, j);
        assert(lj < big);
        let dj = width - lj;
        assert(dn * dn * dn < dj * dj * dj) by (nonlinear_arith)
            requires
                0 <= dn < dj,
        ;
        lemma_chosen_partition(ws, width, last, j);
        lemma_cost_of_overflow(ws, width, last, j, chosen(ws, width, last, j));
    }
    let c = cn + best(ws, width, last, n).0;
    assert(best(ws, width, last, n).0 == 0);
    if n > 1 {
        lemma_scan_span(ws, width, last, 0, n - 1);
        let p = scan(ws, width, last, 0, n - 1);
        assert(c < line_cost(ws, width, last, 0, p.1) + best(ws, width, last, p.1).0);
        assert(c < p.0);
    }
    assert(scan(ws, width, last, 0, n) == (c, n));
    assert(best(ws, width, last, 0).1 == n);
    assert(chosen(ws, width, last, n) == Seq::<int>::empty());
    assert(chosen(ws, width, last, 0) == seq![n]);
    assert(seq![n].drop_first() == Seq::<int>::empty());
    assert(ws.subrange(0, n) == ws);
    assert(lines_from(ws, seq![n], 0) == seq![ws.subrange(0, n)] + lines_from(
        ws,
        Seq::<int>::empty(),
        n,
    ));
}

/// One line rendered: its words joined by their spaces, the spaces after the
/// last word dropped, and a newline.
proof fn lemma_render_one_line(ws: Seq<Word>)
    requires
        ws.len() >= 1,
        ws.last()@.0.len() > 0,
        ws.last()@.0.last() != ' ',
    ensures
        render_lines(seq![ws]) == padded_text(ws.take(ws.len() - 1)) + ws.last()@.0 + seq!['\n'],
{
    let n = ws.len() as int;
    let wn = ws.last()@.0;
    let head = padded_text(ws.take(n - 1));
    lemma_padded_text_step(ws, n - 1);
    assert(ws.take(n) == ws);
    let g = crate::text::gap(ws[n - 1]@);
    lemma_trim_tail(head + wn, g);
    assert(render_line(ws) == head + wn);
    let one = seq![ws];
    assert(one.drop_last() == Seq::<Seq<Word>>::empty());
    assert(one.last() == ws);
    assert(render_lines(one) == render_lines(one.drop_last()) + render_line(ws) + seq!['\n']);
    assert(Seq::<char>::empty() + (head + wn) == head + wn);
}

/// Reading back one rendered line of words that do not end sentences.
proof fn lemma_read_back(ws: Seq<Word>)
    requires
        ws.len() >= 1,
        forall|i: int| 0 <= i < ws.len() ==> !(#[trigger] ws[i]@).1 && plain_word(ws[i]@.0),
        ws.last()@.0.last() != '\r',
    ensures
        paragraphs_of(render_lines(seq![ws])) == seq![
            untagged(ws, ws.len() - 1).push((ws.last()@.0, true)),
        ],
{
    let n = ws.len() as int;
    let wn = ws[n - 1]@.0;
    let _ = ws[n - 1]@;
    let head = padded_text(ws.take(n - 1));
    lemma_render_one_line(ws);
    let t = render_lines(seq![ws]);
    assert(head + wn + seq!['\n'] == head + (wn + seq!['\n']));
    lemma_scan_concat(head, wn + seq!['\n']);
    assert((wn + seq!['\n']).drop_last() == wn);
    let before = if n == 1 {
        assert(ws.take(0) == Seq::<Word>::empty());
        initial_state()
    } else {
        lemma_scan_words(ws, n - 1);
        scan_text(head)
    };
    assert(scan_text(head) == before);
    lemma_run_word(before, wn);
    assert(before.cur + wn == wn);
    if n > 1 {
        let _ = ws[n - 2]@;
        assert(untagged(ws, n - 2).push((ws[n - 2]@.0, false)) == untagged(ws, n - 1));
    } else {
        assert(untagged(ws, 0) == Seq::<Tagged>::empty());
    }
}

/// Re-reading one rendered line of words that do not end sentences gives one
/// paragraph of the same words, in which only the last ends a sentence; that
/// paragraph, broken at a width no smaller than the line and rendered again,
/// gives back the same text, words separated by single spaces.
pub proof fn lemma_rerender_single_line(ws: Seq<Word>, again: Seq<Word>, width: int, last: bool)
    requires
        ws.len() >= 1,
        forall|i: int| 0 <= i < ws.len() ==> !(#[trigger] ws[i]@).1 && plain_word(ws[i]@.0),
        ws.last()@.0.last() != '\r',
        line_len(ws, 0, ws.len() as int) <= width,
        words_view(again) == paragraphs_of(render_lines(seq![ws]))[0],
    ensures
        paragraphs_of(render_lines(seq![ws])).len() == 1,
        again.len() == ws.len(),
        forall|i: int| 0 <= i < ws.len() ==> (#[trigger] again[i]@).0 == ws[i]@.0,
        forall|i: int| 0 <= i < ws.len() - 1 ==> !(#[trigger] again[i]@).1,
        again[ws.len() - 1]@.1,
        render_lines(layout(again, width, last)) == render_lines(seq![ws]),
{
    let n = ws.len() as int;
    let wn = ws[n - 1]@.0;
    let _ = ws[n - 1]@;
    lemma_read_back(ws);
    let expected = untagged(ws, n - 1).push((wn, true));
    assert(words_view(again) == expected);
    assert(words_view(again).len() == again.len());
    assert(expected.len() == n);
    assert forall|i: int| 0 <= i < n implies (#[trigger] again[i]@).0 == ws[i]@.0 by {
        assert(words_view(again)[i] == again[i]@);
    }
    assert(again[n - 1]@ == (wn, true)) by {
        assert(words_view(again)[n - 1] == again[n - 1]@);
    }
    assert forall|i: int| 0 <= i < n - 1 implies again[i]@ == ws[i]@ by {
        assert(words_view(again)[i] == again[i]@);
    }
    lemma_padded_views(again, ws, 0, n - 1);
    assert(line_len(again, 0, n) == line_len(ws, 0, n));
    lemma_padded_lower(ws, 0, n - 1);
    lemma_fitting_line_kept(again, width, last);
    assert(again.take(n - 1).len() == ws.take(n - 1).len());
    lemma_padded_text_views(again.take(n - 1), ws.take(n - 1));
    lemma_render_one_line(ws);
    lemma_render_one_line(again);
}

} // verus!
