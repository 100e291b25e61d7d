//! Position-tracked character input with one slot of pushback.
//!
//! The scanner pulls characters one at a time; when it has read one character
//! past the end of a run it puts that character back, so the next pull
//! returns it again. Positions are absolute character offsets; line and
//! column numbers are derived on demand by re-scanning the input.
use vstd::prelude::*;

verus! {

/// Absolute character offset into the input.
pub type Pos = usize;

/// Half-open extent of input that a token occupies: `start` is the offset
/// of its first character, `end` the offset just past its last.
#[derive(Debug, Clone, Copy, PartialEq, Eq, Structural)]
pub struct Span {
    pub start: Pos,
    pub end: Pos,
}

/// One-based line and column numbers, used only for diagnostics.
#[derive(Debug, Clone, Copy, PartialEq, Eq, Structural)]
pub struct LineCol {
    pub line: usize,
    pub col: usize,
}

/// The one-based line and column of the character at offset `p` of `s`:
/// one more line per newline consumed, columns restarting after each.
pub open spec fn line_col_of(s: Seq<char>, p: int) -> (nat, nat)
    decreases p,
{
    if p <= 0 {
        (1 as nat, 1 as nat)
    } else if s[p - 1] == '\n' {
        ((line_col_of(s, p - 1).0 + 1) as nat, 1 as nat)
    } else {
        (line_col_of(s, p - 1).0, (line_col_of(s, p - 1).1 + 1) as nat)
    }
}

pub proof fn lemma_line_col_bounds(s: Seq<char>, p: int)
    requires
        0 <= p,
    ensures
        1 <= line_col_of(s, p).0 <= p + 1,
        1 <= line_col_of(s, p).1 <= p + 1,
    decreases p,
{
    if p > 0 {
        lemma_line_col_bounds(s, p - 1);
    }
}

/// A character buffer that tracks the current absolute position and lets the
/// caller push the most recently pulled character back for one replay.
pub struct Cursor {
    chars: Vec<char>,
    offset: usize,
    pending: Option<char>,
}

impl Cursor {
    /// The full character sequence this cursor reads.
    pub closed spec fn input(&self) -> Seq<char> {
        self.chars@
    }

    /// Offset of the character the next pull will return.
    pub closed spec fn at(&self) -> nat {
        self.offset as nat
    }

    /// Whether a pushed-back character is waiting to be replayed.
    pub closed spec fn has_pending(&self) -> bool {
        self.pending is Some
    }

    pub closed spec fn wf(&self) -> bool {
        &&& self.chars@.len() <= usize::MAX
        &&& self.offset <= self.chars@.len()
        &&& (self.pending matches Some(c) ==> self.offset < self.chars@.len()
            && self.chars@[self.offset as int] == c)
    }

    /// The input of a well-formed cursor fits in memory, so every offset
    /// into it fits a `usize`, and the cursor never stands past the end.
    pub proof fn lemma_wf_bounds(&self)
        requires
            self.wf(),
        ensures
            self.input().len() <= usize::MAX,
            self.at() <= self.input().len(),
    {
    }

    pub fn new(chars: Vec<char>) -> (r: Cursor)
        ensures
            r.wf(),
            r.input() == chars@,
            r.at() == 0,
            !r.has_pending(),
    {
        proof {
            assert(chars.len() == chars@.len());
        }
        Cursor { chars, offset: 0, pending: None }
    }

    /// Pulls one character: the pending one if a pushback is waiting,
    /// otherwise the next character of the input; `None` at the end.
    pub fn next(&mut self) -> (r: Option<char>)
        requires
            old(self).wf(),
        ensures
            final(self).wf(),
            !final(self).has_pending(),
            final(self).input() == old(self).input(),
            old(self).at() < old(self).input().len() ==> r == Some(
                old(self).input()[old(self).at() as int],
            ) && final(self).at() == old(self).at() + 1,
            old(self).at() == old(self).input().len() ==> r is None && final(self).at() == old(
                self,
            ).at(),
    {
        match self.pending {
            Some(c) => {
                proof {
                    assert(self.chars.len() == self.chars@.len());
                }
                self.pending = None;
                self.offset = self.offset + 1;
                Some(c)
            },
            None => {
                if self.offset < self.chars.len() {
                    let c = self.chars[self.offset];
                    self.offset = self.offset + 1;
                    Some(c)
                } else {
                    None
                }
            },
        }
    }

    /// Stores the character just pulled so the next pull returns it again.
    /// At most one character can be pending; the scanner's control flow
    /// guarantees it never pushes back twice without a pull in between.
    pub fn put_back(&mut self, c: char)
        requires
            old(self).wf(),
            !old(self).has_pending(),
            old(self).at() > 0,
            c == old(self).input()[old(self).at() - 1],
        ensures
            final(self).wf(),
            final(self).has_pending(),
            final(self).input() == old(self).input(),
            final(self).at() == old(self).at() - 1,
    {
        self.pending = Some(c);
        self.offset = self.offset - 1;
    }

    /// The current absolute offset: the position of the character that the
    /// next pull will return, or the end-of-input offset.
    pub fn pos(&self) -> (r: Pos)
        ensures
            r == self.at(),
    {
        self.offset
    }

    /// Maps a previously recorded offset to its one-based line and column by
    /// scanning the input up to that offset.
    pub fn line_col(&self, pos: Pos) -> (r: LineCol)
        requires
            pos <= self.input().len(),
            pos < usize::MAX,
        ensures
            (r.line as nat, r.col as nat) == line_col_of(self.input(), pos as int),
    {
        let mut line: usize = 1;
        let mut col: usize = 1;
        let mut i: usize = 0;
        while i < pos
            invariant
                i <= pos,
                pos <= self.input().len(),
                pos < usize::MAX,
                (line as nat, col as nat) == line_col_of(self.input(), i as int),
            decreases pos - i,
        {
            proof {
                lemma_line_col_bounds(self.input(), i as int);
            }
            if self.chars[i] == '\n' {
                line = line + 1;
                col = 1;
            } else {
                col = col + 1;
            }
            i = i + 1;
        }
        LineCol { line, col }
    }
}

} // verus!
