use vstd::prelude::*;
use vstd::std_specs::iter::IteratorSpec;

verus! {

/// A word of the input, tagged by whether it ends a sentence.
#[derive(Debug, Clone, PartialEq, Eq)]
pub enum Word {
    Normal(Vec<char>),
    EndOfSentence(Vec<char>),
}

impl View for Word {
    /// The word's characters and whether it ends a sentence.
    type V = (Seq<char>, bool);

    open spec fn view(&self) -> (Seq<char>, bool) {
        match self {
            Word::Normal(t) => (t@, false),
            Word::EndOfSentence(t) => (t@, true),
        }
    }
}

/// Relies on `String`'s `FromIterator<&char>`, through `Iterator::collect`:
/// the string holds the given characters, in order.
#[verifier::external_body]
pub(crate) fn string_from_chars(v: &Vec<char>) -> (r: String)
    ensures
        r@ == v@,
{
    v.iter().collect()
}

/// The characters of `s`, in order.
pub fn chars_of(s: &str) -> (r: Vec<char>)
    ensures
        r@ == s@,
{
    broadcast use vstd::string::axiom_spec_iter, vstd::string::next_postcondition;

    let mut it = s.chars();
    let mut r: Vec<char> = Vec::new();
    loop
        invariant
            r@ + it.remaining() == s@,
            it.decrease() is Some,
        ensures
            r@ == s@,
        decreases it.decrease()->0,
    {
        let ghost before = it.remaining();
        match it.next() {
            Some(c) => {
                r.push(c);
                proof {
                    assert(r@ + it.remaining() == s@) by {
                        assert(before == seq![c] + before.drop_first());
                    }
                }
            },
            None => {
                assert(r@ + Seq::<char>::empty() == r@);
                break ;
            },
        }
    }
    r
}

impl Word {
    /// A word that does not end a sentence.
    pub fn normal(s: &str) -> (w: Word)
        ensures
            w@ == (s@, false),
    {
        Word::Normal(chars_of(s))
    }

    /// A word that ends a sentence.
    pub fn end_of_sentence(s: &str) -> (w: Word)
        ensures
            w@ == (s@, true),
    {
        Word::EndOfSentence(chars_of(s))
    }

    /// The word's text.
    pub fn text(&self) -> (r: String)
        ensures
            r@ == self@.0,
    {
        string_from_chars(self.chars())
    }

    /// The word's characters.
    pub fn chars(&self) -> (r: &Vec<char>)
        ensures
            r@ == self@.0,
    {
        match self {
            Word::Normal(t) => t,
            Word::EndOfSentence(t) => t,
        }
    }

    /// Whether the word ends a sentence.
    pub fn ends_sentence(&self) -> (r: bool)
        ensures
            r == self@.1,
    {
        match self {
            Word::Normal(_) => false,
            Word::EndOfSentence(_) => true,
        }
    }

    /// The number of characters of the word.
    pub fn len_chars(&self) -> (r: usize)
        ensures
            r == self@.0.len(),
    {
        self.chars().len()
    }
}

/// The number of spaces that follow a word inside a line.
pub open spec fn gap(w: (Seq<char>, bool)) -> int {
    if w.1 {
        2
    } else {
        1
    }
}

/// Characters taken by words `i..j`, each with the spaces that follow it.
pub open spec fn padded(ws: Seq<Word>, i: int, j: int) -> int
    decreases j - i,
{
    if j <= i {
        0
    } else {
        padded(ws, i, j - 1) + ws[j - 1]@.0.len() + gap(ws[j - 1]@)
    }
}

/// Length of the line made of words `i..j` (`i < j`): the padded length
/// without the spaces after its last word.
pub open spec fn line_len(ws: Seq<Word>, i: int, j: int) -> int {
    padded(ws, i, j) - gap(ws[j - 1]@)
}

pub proof fn lemma_padded_split(ws: Seq<Word>, i: int, j: int, k: int)
    requires
        i <= j <= k,
    ensures
        padded(ws, i, j) + padded(ws, j, k) == padded(ws, i, k),
    decreases k - j,
{
    if k > j {
        lemma_padded_split(ws, i, j, k - 1);
    }
}

pub proof fn lemma_padded_lower(ws: Seq<Word>, i: int, j: int)
    requires
        i <= j,
    ensures
        padded(ws, i, j) >= j - i,
    decreases j - i,
{
    if j > i {
        lemma_padded_lower(ws, i, j - 1);
    }
}

/// A line within a paragraph is no longer than the whole padded paragraph.
pub proof fn lemma_line_len_bounds(ws: Seq<Word>, i: int, j: int)
    requires
        0 <= i < j <= ws.len(),
    ensures
        0 <= line_len(ws, i, j) <= padded(ws, 0, ws.len() as int),
        j - i <= padded(ws, 0, ws.len() as int),
{
    lemma_padded_split(ws, 0, i, j);
    lemma_padded_split(ws, 0, j, ws.len() as int);
    lemma_padded_lower(ws, 0, i);
    lemma_padded_lower(ws, i, j - 1);
    lemma_padded_lower(ws, j, ws.len() as int);
    lemma_padded_lower(ws, i, j);
}

} // verus!
