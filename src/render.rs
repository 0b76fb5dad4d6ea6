use vstd::prelude::*;
use crate::breaker::Paragraph;
use crate::text::{gap, string_from_chars, Word};

verus! {

/// `n` spaces.
pub open spec fn spaces(n: int) -> Seq<char> {
    Seq::new(n as nat, |k: int| ' ')
}

/// The words of a line, each followed by its one or two spaces.
pub open spec fn padded_text(line: Seq<Word>) -> Seq<char>
    decreases line.len(),
{
    if line.len() == 0 {
        seq![]
    } else {
        padded_text(line.drop_last()) + line.last()@.0 + spaces(gap(line.last()@))
    }
}

/// `s` without its trailing space characters.
pub open spec fn trim_spaces(s: Seq<char>) -> Seq<char>
    decreases s.len(),
{
    if s.len() > 0 && s.last() == ' ' {
        trim_spaces(s.drop_last())
    } else {
        s
    }
}

/// The text of one line, without its newline.
pub open spec fn render_line(line: Seq<Word>) -> Seq<char> {
    trim_spaces(padded_text(line))
}

/// The text of a sequence of lines, each ended by a newline.
pub open spec fn render_lines(lines: Seq<Seq<Word>>) -> Seq<char>
    decreases lines.len(),
{
    if lines.len() == 0 {
        seq![]
    } else {
        render_lines(lines.drop_last()) + render_line(lines.last()) + seq!['\n']
    }
}

/// Appends the text of `line`, trimmed, and a newline to `out`.
fn push_line(out: &mut Vec<char>, line: &[Word])
    ensures
        final(out)@ == old(out)@ + render_line(line@) + seq!['\n'],
{
    let mut buf: Vec<char> = Vec::new();
    let mut k: usize = 0;
    while k < line.len()
        invariant
            k <= line@.len(),
            buf@ == padded_text(line@.subrange(0, k as int)),
        decreases line@.len() - k,
    {
        let w = &line[k];
        let t = w.chars();
        let ghost before = buf@;
        let mut c: usize = 0;
        while c < t.len()
            invariant
                c <= t@.len(),
                buf@ == before + t@.subrange(0, c as int),
            decreases t@.len() - c,
        {
            buf.push(t[c]);
            proof {
                assert(t@.subrange(0, c + 1) == t@.subrange(0, c as int).push(t@[c as int]));
            }
            c = c + 1;
        }
        buf.push(' ');
        if w.ends_sentence() {
            buf.push(' ');
        }
        proof {
            let sub = line@.subrange(0, k + 1);
            assert(sub.drop_last() == line@.subrange(0, k as int));
            assert(sub.last() == line@[k as int]);
            assert(t@.subrange(0, t@.len() as int) == t@);
            assert(spaces(gap(w@)) == if w@.1 { seq![' ', ' '] } else { seq![' '] });
        }
        k = k + 1;
    }
    proof {
        assert(line@.subrange(0, line@.len() as int) == line@);
    }
    let ghost whole = buf@;
    while buf.len() > 0 && buf[buf.len() - 1] == ' '
        invariant
            trim_spaces(buf@) == trim_spaces(whole),
        decreases buf@.len(),
    {
        let ghost b = buf@;
        buf.pop();
        proof {
            assert(buf@ == b.drop_last());
        }
    }
    out.append(&mut buf);
    out.push('\n');
}

impl<'a> Paragraph<'a> {
    /// The text of the paragraph: each line's words, each followed by one
    /// space, or two after the end of a sentence, with the trailing spaces
    /// removed, and a newline after each line.
    pub fn render(&self) -> (r: String)
        ensures
            r@ == render_lines(self@),
    {
        let mut out: Vec<char> = Vec::new();
        let mut k: usize = 0;
        while k < self.paragraph.len()
            invariant
                k <= self@.len() == self.paragraph@.len(),
                out@ == render_lines(self@.subrange(0, k as int)),
            decreases self@.len() - k,
        {
            push_line(&mut out, self.paragraph[k]);
            proof {
                let sub = self@.subrange(0, k + 1);
                assert(sub.drop_last() == self@.subrange(0, k as int));
                assert(sub.last() == self.paragraph@[k as int]@);
            }
            k = k + 1;
        }
        proof {
            assert(self@.subrange(0, self@.len() as int) == self@);
        }
        string_from_chars(&out)
    }
}

} // verus!
