use vstd::prelude::*;
use crate::text::{chars_of, Word};

verus! {

/// A word as the tokenizer sees it: its characters, and whether it ends a
/// sentence.
pub type Tagged = (Seq<char>, bool);

/// Where the tokenizer stands after reading part of the input.
pub struct ScanState {
    /// The paragraphs already closed.
    pub paras: Seq<Seq<Tagged>>,
    /// The words of the open paragraph.
    pub para: Seq<Tagged>,
    /// The last word read, not tagged yet.
    pub pending: Option<Seq<char>>,
    /// The characters of the piece of line being read.
    pub cur: Seq<char>,
    /// Whether an empty piece (two spaces in a row, a space at the start or
    /// end of a line, an empty line) came since the last word.
    pub many_spaces: bool,
    /// Line breaks read since the last word, counted up to two.
    pub breaks: nat,
}

/// The characters that end a sentence.
pub open spec fn is_terminator(c: char) -> bool {
    c == '.' || c == '!' || c == '?' || c == '…'
}

/// Whether `w` ends with a sentence terminator.
pub open spec fn ends_with_terminator(w: Seq<char>) -> bool {
    w.len() > 0 && is_terminator(w.last())
}

pub open spec fn initial_state() -> ScanState {
    ScanState {
        paras: seq![],
        para: seq![],
        pending: None,
        cur: seq![],
        many_spaces: false,
        breaks: 0,
    }
}

/// A non-empty piece `word` is read: the pending word, if any, is tagged and
/// added to the open paragraph, which is closed when a blank line came after
/// that word; `word` becomes the pending word, and the spaces and line breaks
/// seen so far are forgotten, so that those before the first word count for
/// nothing.
pub open spec fn take_word(st: ScanState, word: Seq<char>) -> ScanState {
    match st.pending {
        None => ScanState { pending: Some(word), many_spaces: false, breaks: 0, ..st },
        Some(prev) => {
            let tagged = (prev, ends_with_terminator(prev) && (st.many_spaces || st.breaks > 0));
            let para = st.para.push(tagged);
            if st.breaks > 1 {
                ScanState {
                    paras: st.paras.push(para),
                    para: seq![],
                    pending: Some(word),
                    many_spaces: false,
                    breaks: 0,
                    ..st
                }
            } else {
                ScanState { para, pending: Some(word), many_spaces: false, breaks: 0, ..st }
            }
        },
    }
}

/// The piece of line `piece` ends: an empty one is only noted.
pub open spec fn end_piece(st: ScanState, piece: Seq<char>) -> ScanState {
    let st = ScanState { cur: seq![], ..st };
    if piece.len() == 0 {
        ScanState { many_spaces: true, ..st }
    } else {
        take_word(st, piece)
    }
}

/// `s` without a carriage return at its end.
pub open spec fn strip_cr(s: Seq<char>) -> Seq<char> {
    if s.len() > 0 && s.last() == '\r' {
        s.drop_last()
    } else {
        s
    }
}

/// Reads one character: a space ends a piece, a line feed ends a piece (less
/// the carriage return of a CR LF) and a line, any other character extends
/// the piece.
pub open spec fn step(st: ScanState, c: char) -> ScanState {
    if c == ' ' {
        end_piece(st, st.cur)
    } else if c == '\n' {
        let s2 = end_piece(st, strip_cr(st.cur));
        ScanState { breaks: if s2.breaks >= 2 { 2 } else { s2.breaks + 1 }, ..s2 }
    } else {
        ScanState { cur: st.cur.push(c), ..st }
    }
}

/// The state after reading all of `s`.
pub open spec fn scan_text(s: Seq<char>) -> ScanState
    decreases s.len(),
{
    if s.len() == 0 {
        initial_state()
    } else {
        step(scan_text(s.drop_last()), s.last())
    }
}

/// The paragraphs of `s`: the last piece ends, the last word is tagged as
/// ending a sentence, and the open paragraph, even an empty one, is closed.
pub open spec fn paragraphs_of(s: Seq<char>) -> Seq<Seq<Tagged>> {
    let st = end_piece(scan_text(s), scan_text(s).cur);
    let para = match st.pending {
        Some(w) => st.para.push((w, true)),
        None => st.para,
    };
    st.paras.push(para)
}

/// The view of a paragraph of words.
pub open spec fn words_view(p: Seq<Word>) -> Seq<Tagged> {
    p.map_values(|w: Word| w@)
}

/// The view of a sequence of paragraphs.
pub open spec fn paragraphs_view(ps: Seq<Vec<Word>>) -> Seq<Seq<Tagged>> {
    ps.map_values(|p: Vec<Word>| words_view(p@))
}

/// Whether `c` ends a sentence.
fn terminator(c: char) -> (r: bool)
    ensures
        r == is_terminator(c),
{
    c == '.' || c == '!' || c == '?' || c == '…'
}

/// The tokenizer's executable state.
struct Scanner {
    paras: Vec<Vec<Word>>,
    para: Vec<Word>,
    pending: Option<Vec<char>>,
    cur: Vec<char>,
    many_spaces: bool,
    breaks: u8,
}

impl View for Scanner {
    type V = ScanState;

    closed spec fn view(&self) -> ScanState {
        ScanState {
            paras: paragraphs_view(self.paras@),
            para: words_view(self.para@),
            pending: match self.pending {
                Some(w) => Some(w@),
                None => None,
            },
            cur: self.cur@,
            many_spaces: self.many_spaces,
            breaks: self.breaks as nat,
        }
    }
}

impl Scanner {
    spec fn wf(&self) -> bool {
        self.breaks <= 2
    }

    fn take_word(&mut self, word: Vec<char>)
        requires
            old(self).wf(),
        ensures
            final(self).wf(),
            final(self)@ == take_word(old(self)@, word@),
    {
        let prev = self.pending.take();
        match prev {
            None => {
                self.many_spaces = false;
                self.breaks = 0;
            },
            Some(prev) => {
                let n = prev.len();
                let ends = n > 0 && terminator(prev[n - 1]);
                let tagged = if ends && (self.many_spaces || self.breaks > 0) {
                    Word::EndOfSentence(prev)
                } else {
                    Word::Normal(prev)
                };
                let ghost tv = tagged@;
                let ghost before = self.para@;
                self.para.push(tagged);
                proof {
                    assert(words_view(self.para@) == words_view(before).push(tv));
                }
                self.many_spaces = false;
                if self.breaks > 1 {
                    let mut done: Vec<Word> = Vec::new();
                    core::mem::swap(&mut self.para, &mut done);
                    let ghost pb = self.paras@;
                    self.paras.push(done);
                    proof {
                        assert(paragraphs_view(self.paras@) == paragraphs_view(pb).push(
                            words_view(done@),
                        ));
                        assert(words_view(self.para@) == Seq::<Tagged>::empty());
                    }
                }
                self.breaks = 0;
            },
        }
        self.pending = Some(word);
    }

    /// Ends the current piece, less a final carriage return when `strip`.
    fn end_piece(&mut self, strip: bool)
        requires
            old(self).wf(),
        ensures
            final(self).wf(),
            final(self)@ == end_piece(
                old(self)@,
                if strip {
                    strip_cr(old(self)@.cur)
                } else {
                    old(self)@.cur
                },
            ),
    {
        let mut piece: Vec<char> = Vec::new();
        core::mem::swap(&mut self.cur, &mut piece);
        if strip && piece.len() > 0 && piece[piece.len() - 1] == '\r' {
            piece.pop();
        }
        if piece.len() == 0 {
            self.many_spaces = true;
        } else {
            self.take_word(piece);
        }
    }

    fn step(&mut self, c: char)
        requires
            old(self).wf(),
        ensures
            final(self).wf(),
            final(self)@ == step(old(self)@, c),
    {
        if c == ' ' {
            self.end_piece(false);
        } else if c == '\n' {
            self.end_piece(true);
            if self.breaks < 2 {
                self.breaks = self.breaks + 1;
            }
        } else {
            self.cur.push(c);
        }
    }
}

/// Splits `input` into paragraphs of tagged words. Lines end at a line feed,
/// whose carriage return, if any, is dropped; words are the non-empty pieces
/// between spaces. A word ends a sentence when it ends with one of `.`, `!`,
/// `?`, `…` and a line break or more than one space follows it; the last word
/// always does. A blank line between two words closes a paragraph. The last
/// paragraph is always there, empty when the input holds no word.
pub fn tokenize(input: &str) -> (text: Vec<Vec<Word>>)
    ensures
        paragraphs_view(text@) == paragraphs_of(input@),
{
    let chars = chars_of(input);
    let mut sc = Scanner {
        paras: Vec::new(),
        para: Vec::new(),
        pending: None,
        cur: Vec::new(),
        many_spaces: false,
        breaks: 0,
    };
    proof {
        assert(sc@.paras == Seq::<Seq<Tagged>>::empty());
        assert(sc@.para == Seq::<Tagged>::empty());
        assert(chars@.take(0) == Seq::<char>::empty());
    }
    let mut i: usize = 0;
    while i < chars.len()
        invariant
            i <= chars@.len(),
            sc.wf(),
            sc@ == scan_text(chars@.take(i as int)),
        decreases chars@.len() - i,
    {
        sc.step(chars[i]);
        proof {
            assert(chars@.take(i + 1).drop_last() == chars@.take(i as int));
        }
        i = i + 1;
    }
    proof {
        assert(chars@.take(chars@.len() as int) == input@);
    }
    sc.end_piece(false);
    let mut para: Vec<Word> = Vec::new();
    core::mem::swap(&mut sc.para, &mut para);
    let ghost before = para@;
    match sc.pending.take() {
        Some(w) => {
            para.push(Word::EndOfSentence(w));
            proof {
                assert(words_view(para@) == words_view(before).push(para@.last()@));
            }
        },
        None => {},
    }
    let mut text: Vec<Vec<Word>> = Vec::new();
    core::mem::swap(&mut sc.paras, &mut text);
    let ghost pb = text@;
    text.push(para);
    proof {
        assert(paragraphs_view(text@) == paragraphs_view(pb).push(words_view(para@)));
    }
    text
}

} // verus!
