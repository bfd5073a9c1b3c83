//! The scanner: a uniform one-character-lookahead view over a byte source.
//!
//! Each raw read pulls exactly one byte from the source and hands it out as a
//! `char`; a single-character pushback buffer lets `peek` inspect the next
//! character without consuming it. The buffer holds at most one character,
//! `peek` never advances more than one character past the last consumed
//! position, and `next` always drains the buffer before reading fresh input.

use vstd::prelude::*;

verus! {

/// One byte of a source, read as a character.
pub open spec fn byte_char(b: u8) -> char {
    b as char
}

/// The characters a byte source yields, in order.
pub open spec fn chars_of(bytes: Seq<u8>) -> Seq<char> {
    Seq::new(bytes.len(), |k: int| byte_char(bytes[k]))
}

pub struct Scanner {
    input: Vec<u8>,
    pos: usize,
    buffer: Option<char>,
}

impl Scanner {
    /// The full character stream this scanner was built over.
    pub closed spec fn src(&self) -> Seq<char> {
        chars_of(self.input@)
    }

    /// How many characters have been consumed so far; a character sitting in
    /// the pushback buffer has not been consumed.
    pub closed spec fn consumed(&self) -> int {
        self.pos - match self.buffer {
            Some(_) => 1int,
            None => 0int,
        }
    }

    /// The pushback buffer holds at most the character just read ahead.
    pub closed spec fn buffer_ok(&self) -> bool {
        self.pos <= self.input.len() && match self.buffer {
            Some(c) => self.pos >= 1 && c == byte_char(self.input[self.pos - 1]),
            None => true,
        }
    }

    pub open spec fn wf(&self) -> bool {
        self.buffer_ok() && 0 <= self.consumed() <= self.src().len()
    }

    pub fn new(input: Vec<u8>) -> (s: Scanner)
        ensures
            s.wf(),
            s.src() == chars_of(input@),
            s.consumed() == 0,
    {
        Scanner { input, pos: 0, buffer: None }
    }

    /// Pull one fresh unit from the underlying source, or report that none
    /// is available.
    fn read_raw(&mut self) -> (r: Option<char>)
        requires
            old(self).wf(),
            old(self).buffer is None,
        ensures
            final(self).input == old(self).input,
            final(self).buffer is None,
            if old(self).pos < old(self).input.len() {
                r == Some(byte_char(old(self).input[old(self).pos as int])) && final(self).pos
                    == old(self).pos + 1
            } else {
                r is None && final(self).pos == old(self).pos
            },
    {
        if self.pos < self.input.len() {
            let c = self.input[self.pos] as char;
            self.pos = self.pos + 1;
            Some(c)
        } else {
            None
        }
    }

    /// Return and consume the next character, whether previously buffered by
    /// `peek` or freshly read; `None` once the source is exhausted.
    pub fn next(&mut self) -> (r: Option<char>)
        requires
            old(self).wf(),
        ensures
            final(self).wf(),
            final(self).src() == old(self).src(),
            if old(self).consumed() < old(self).src().len() {
                r == Some(old(self).src()[old(self).consumed()]) && final(self).consumed() == old(
                    self,
                ).consumed() + 1
            } else {
                r is None && final(self).consumed() == old(self).consumed()
            },
    {
        match self.buffer {
            Some(c) => {
                self.buffer = None;
                Some(c)
            },
            None => self.read_raw(),
        }
    }

    /// Return the next character without consuming it: repeated calls
    /// without an intervening `next` return the same character and do not
    /// advance the source. `None` every time once the source is exhausted.
    pub fn peek(&mut self) -> (r: Option<char>)
        requires
            old(self).wf(),
        ensures
            final(self).wf(),
            final(self).src() == old(self).src(),
            final(self).consumed() == old(self).consumed(),
            r == (if old(self).consumed() < old(self).src().len() {
                Some(old(self).src()[old(self).consumed()])
            } else {
                None::<char>
            }),
    {
        match self.buffer {
            Some(c) => Some(c),
            None => {
                let r = self.read_raw();
                self.buffer = r;
                r
            },
        }
    }

    /// How many characters have been consumed so far.
    pub fn position(&self) -> (n: usize)
        requires
            self.wf(),
        ensures
            n == self.consumed(),
    {
        match self.buffer {
            Some(_) => self.pos - 1,
            None => self.pos,
        }
    }
}

} // verus!
