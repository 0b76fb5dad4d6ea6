use subpar::{badness, fits_measure, line_lengths, reformat, tokenize, Args, Paragraph, Word};

fn n(s: &str) -> Word {
    Word::normal(s)
}

fn e(s: &str) -> Word {
    Word::end_of_sentence(s)
}

fn args(width: usize, last: bool) -> Args {
    Args { flag_last: last, flag_width: width }
}

fn lines_of(p: &Paragraph) -> Vec<Vec<String>> {
    p.paragraph.iter().map(|l| l.iter().map(|w| w.text()).collect()).collect()
}

#[test]
fn two_spaces_after_period_end_a_sentence() {
    let t = tokenize("End.  Next");
    assert_eq!(t, vec![vec![e("End."), e("Next")]]);
}

#[test]
fn one_space_after_period_does_not_end_a_sentence() {
    let t = tokenize("End. Next");
    assert_eq!(t, vec![vec![n("End."), e("Next")]]);
}

#[test]
fn line_break_after_terminator_ends_a_sentence() {
    let t = tokenize("Wait!\nGo? on\r\nnow");
    assert_eq!(t, vec![vec![e("Wait!"), n("Go?"), n("on"), e("now")]]);
}

#[test]
fn ellipsis_is_a_terminator() {
    let t = tokenize("So…  then");
    assert_eq!(t, vec![vec![e("So…"), e("then")]]);
}

#[test]
fn word_without_terminator_stays_normal() {
    let t = tokenize("one  two\nthree");
    assert_eq!(t, vec![vec![n("one"), n("two"), e("three")]]);
}

#[test]
fn blank_lines_separate_paragraphs() {
    let t = tokenize("alpha beta\n\n\ngamma delta\n");
    assert_eq!(t, vec![vec![n("alpha"), n("beta")], vec![n("gamma"), e("delta")]]);
    let out: Vec<String> = t
        .iter()
        .map(|p| reformat(p, &args(79, false)).render())
        .collect();
    assert_eq!(out, vec!["alpha beta\n".to_string(), "gamma delta\n".to_string()]);
}

#[test]
fn single_line_break_keeps_one_paragraph() {
    let t = tokenize("a\nb");
    assert_eq!(t.len(), 1);
    assert_eq!(t[0].len(), 2);
}

#[test]
fn empty_input_gives_one_empty_paragraph() {
    let t = tokenize("");
    assert_eq!(t, vec![Vec::<Word>::new()]);
    let p = reformat(&t[0], &args(79, false));
    assert!(p.paragraph.is_empty());
    assert_eq!(p.render(), "");
}

#[test]
fn badness_values() {
    assert_eq!(badness(9, 9), 0);
    assert_eq!(badness(4, 9), 125);
    assert_eq!(badness(0, 10), 1000);
    assert_eq!(badness(14, 9), 5_000_000);
    assert_eq!(badness(10, 9), 1_000_000);
}

#[test]
fn badness_is_monotonic_around_the_width() {
    for l in 0..20usize {
        assert!(badness(l, 20) > badness(l + 1, 20));
    }
    for l in 21..40usize {
        assert!(badness(l, 20) < badness(l + 1, 20));
    }
}

#[test]
fn line_lengths_count_spaces_after_words() {
    let ws = vec![n("aaaa"), e("bb."), n("c")];
    let l = line_lengths(&ws);
    assert_eq!(l, vec![vec![4, 8, 11], vec![3, 6], vec![1]]);
}

#[test]
fn line_lengths_count_characters_not_bytes() {
    let ws = vec![n("héllo"), n("wörld")];
    assert_eq!(line_lengths(&ws), vec![vec![5, 11], vec![5]]);
}

#[test]
fn three_words_at_width_nine() {
    let ws = vec![n("aaaa"), n("bbbb"), n("cccc")];
    let p = reformat(&ws, &args(9, false));
    assert_eq!(lines_of(&p), vec![vec!["aaaa", "bbbb"], vec!["cccc"]]);
    assert_eq!(p.maxwidth, 9);
    assert_eq!(p.render(), "aaaa bbbb\ncccc\n");
}

#[test]
fn last_flag_drops_the_short_last_line_discount() {
    let ws = vec![n("aaaa"), n("bbbb"), n("cccc")];
    let p = reformat(&ws, &args(9, true));
    assert_eq!(lines_of(&p), vec![vec!["aaaa"], vec!["bbbb", "cccc"]]);
}

#[test]
fn word_longer_than_width_stays_on_one_line() {
    let ws = vec![e("abcdefghijkl")];
    let p = reformat(&ws, &args(5, false));
    assert_eq!(lines_of(&p), vec![vec!["abcdefghijkl"]]);
    assert_eq!(p.render(), "abcdefghijkl\n");
    assert_eq!(badness(12, 5), 7_000_000);
}

#[test]
fn every_word_is_placed_once() {
    let t = tokenize("The quick brown fox jumps over the lazy dog.  It was not amused by this at all.");
    for width in [5usize, 10, 17, 30, 79] {
        for last in [false, true] {
            let p = reformat(&t[0], &args(width, last));
            let flat: Vec<Word> = p.paragraph.iter().flat_map(|l| l.iter().cloned()).collect();
            assert_eq!(flat, t[0]);
            assert!(p.paragraph.iter().all(|l| !l.is_empty()));
        }
    }
}

#[test]
fn fitting_lines_are_preferred_to_overflow() {
    let t = tokenize("aa bb cc dd ee ff gg");
    let p = reformat(&t[0], &args(8, false));
    let ls = line_lengths(&t[0]);
    let mut i = 0;
    for l in &p.paragraph {
        assert!(ls[i][l.len() - 1] <= 8);
        i += l.len();
    }
}

#[test]
fn wider_width_does_not_add_lines() {
    let t = tokenize("aaaa bbbb cccc dddd eeee ffff");
    let narrow = reformat(&t[0], &args(9, false));
    let wide = reformat(&t[0], &args(14, false));
    assert_eq!(narrow.paragraph.len(), 3);
    assert_eq!(wide.paragraph.len(), 2);
    let widest = reformat(&t[0], &args(40, false));
    assert_eq!(widest.paragraph.len(), 1);
}

#[test]
fn rendering_ends_sentences_with_two_spaces() {
    let ws = vec![e("One."), n("two"), e("three.")];
    let p = reformat(&ws, &args(79, false));
    assert_eq!(p.render(), "One.  two three.\n");
}

#[test]
fn rendered_line_tokenizes_back_to_itself() {
    let ws = vec![n("alpha"), n("beta"), n("gamma")];
    let first = reformat(&ws, &args(40, false)).render();
    assert_eq!(first, "alpha beta gamma\n");
    let again = tokenize(&first);
    assert_eq!(again.len(), 1);
    let texts: Vec<String> = again[0].iter().map(|w| w.text()).collect();
    assert_eq!(texts, vec!["alpha", "beta", "gamma"]);
    let second = reformat(&again[0], &args(16, false)).render();
    assert_eq!(second, first);
}

#[test]
fn word_text_round_trip() {
    let w = n("héllo");
    assert_eq!(w.text(), "héllo");
    assert_eq!(w.len_chars(), 5);
    assert!(!w.ends_sentence());
    assert!(e("x.").ends_sentence());
}

#[test]
fn leading_blank_lines_do_not_split_the_first_word_off() {
    let t = tokenize("\n\na b");
    assert_eq!(t, vec![vec![n("a"), e("b")]]);
}

#[test]
fn leading_spaces_do_not_end_the_first_sentence() {
    let t = tokenize("  A. B");
    assert_eq!(t, vec![vec![n("A."), e("B")]]);
}

#[test]
fn measure_limits() {
    let ws = vec![n("aaaa"), e("bb.")];
    assert!(fits_measure(&ws, 79));
    assert!(fits_measure(&ws, 4294967295));
    assert!(!fits_measure(&ws, 4294967296));
    assert!(fits_measure(&[], 0));
}
