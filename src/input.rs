//! A cursor over the characters of an input.
use vstd::prelude::*;

use crate::result::LineInfo;

verus! {

/// The line and column (both from 1) after the first `n` characters of `s`:
/// a newline starts a new line at column 1, any other character moves one
/// column on.
pub open spec fn line_col(s: Seq<char>, n: nat) -> (nat, nat)
    decreases n,
{
    if n == 0 {
        (1, 1)
    } else {
        let (l, c) = line_col(s, (n - 1) as nat);
        if s[n - 1] == '\n' {
            (l + 1, 1)
        } else {
            (l, c + 1)
        }
    }
}

/// Line and column never pass one more than the number of characters read.
pub proof fn lemma_line_col_bounds(s: Seq<char>, n: nat)
    ensures
        1 <= line_col(s, n).0 <= n + 1,
        1 <= line_col(s, n).1 <= n + 1,
    decreases n,
{
    if n > 0 {
        lemma_line_col_bounds(s, (n - 1) as nat);
    }
}

/// A position in `chars`, with its line and column.  Copying it is cheap:
/// the characters are shared.
#[derive(Clone, Copy)]
pub struct Input<'a> {
    pub chars: &'a [char],
    pub pos: usize,
    pub row: usize,
    pub col: usize,
}

impl<'a> Input<'a> {
    /// The cursor stands at `pos` and knows its line and column.
    pub open spec fn wf(&self) -> bool {
        &&& self.pos <= self.chars@.len()
        &&& self.chars@.len() < usize::MAX
        &&& (self.row as nat, self.col as nat) == line_col(self.chars@, self.pos as nat)
    }

    /// What is left to read.
    pub open spec fn rest(&self) -> Seq<char> {
        self.chars@.subrange(self.pos as int, self.chars@.len() as int)
    }

    /// A cursor at the start of `chars`.
    pub fn new(chars: &'a [char]) -> (r: Self)
        requires
            chars@.len() < usize::MAX,
        ensures
            r.wf(),
            r.chars@ == chars@,
            r.pos == 0,
    {
        Input { chars, pos: 0, row: 1, col: 1 }
    }

    /// Reads one character; `None` at the end of the input.
    pub fn next(&mut self) -> (r: Option<char>)
        requires
            old(self).wf(),
        ensures
            final(self).wf(),
            final(self).chars@ == old(self).chars@,
            old(self).pos < old(self).chars@.len() ==> r == Some(old(self).chars@[old(self).pos as int])
                && final(self).pos == old(self).pos + 1,
            old(self).pos >= old(self).chars@.len() ==> r is None && *final(self) == *old(self),
    {
        if self.pos < self.chars.len() {
            let c = self.chars[self.pos];
            proof {
                lemma_line_col_bounds(self.chars@, self.pos as nat);
            }
            self.pos = self.pos + 1;
            if c == '\n' {
                self.row = self.row + 1;
                self.col = 1;
            } else {
                self.col = self.col + 1;
            }
            Some(c)
        } else {
            None
        }
    }

    /// The number of characters read so far.
    pub fn pos(&self) -> (r: usize)
        ensures
            r == self.pos,
    {
        self.pos
    }

    /// The line and column of the next character.
    pub fn row_col(&self) -> (r: (usize, usize))
        ensures
            r == (self.row, self.col),
    {
        (self.row, self.col)
    }

    /// The position as a `LineInfo`.
    pub fn line_info(&self) -> (r: LineInfo)
        ensures
            r.pos == self.pos,
            r.line == self.row,
            r.column == self.col,
    {
        LineInfo { pos: self.pos, line: self.row, column: self.col }
    }
}

/// The characters of `s`, in order.
fn chars_of(s: &str) -> (r: Vec<char>)
    ensures
        r@ == s@,
{
    broadcast use vstd::string::axiom_spec_iter;

    let mut v: Vec<char> = Vec::new();
    for c in it: s.chars()
        invariant
            v@ == it.seq().take(it.index() as int),
    {
        v.push(c);
    }
    v
}

/// The characters of a text, held for cursors to read.
pub struct CharsInput {
    pub chars: Vec<char>,
}

impl CharsInput {
    /// The characters of `s`.
    pub fn new(s: &str) -> (r: CharsInput)
        ensures
            r.chars@ == s@,
    {
        CharsInput { chars: chars_of(s) }
    }

    /// A cursor at the start of the text.
    pub fn input(&self) -> (r: Input<'_>)
        requires
            self.chars@.len() < usize::MAX,
        ensures
            r.wf(),
            r.pos == 0,
            r.chars@ == self.chars@,
    {
        Input::new(self.chars.as_slice())
    }
}

} // verus!
