//! The scanning cursor: a character-addressable cursor over the input with
//! position tracking and literal-prefix matching.

use vstd::prelude::*;
use vstd::string::StringSliceAdditionalSpecFns;
use crate::error::Error;
use crate::parse::l1::matches_at;
use crate::str::Str;
use crate::str::chars_of;

verus! {

/// The inclusive bound on the input's byte length: offsets are meant to fit
/// a compact 32-bit encoding.
pub const INPUT_LIMIT: usize = 4294967295;

/// The input's byte length, as the machine reports it.
pub open spec fn spec_byte_len(s: &str) -> usize {
    s.spec_bytes().len() as usize
}

/// A cursor over the characters of the input. Advancement is per character,
/// so the position is always a character boundary.
pub struct Cursor {
    chars: Vec<char>,
    pos: usize,
}

impl Cursor {
    /// The characters being scanned.
    pub closed spec fn text(&self) -> Seq<char> {
        self.chars@
    }

    /// The current position, in characters from the start.
    pub closed spec fn position(&self) -> int {
        self.pos as int
    }

    /// The position never runs past the end of the input.
    pub open spec fn wf(&self) -> bool {
        0 <= self.position() <= self.text().len() && self.text().len() <= usize::MAX
    }

    /// Builds a cursor over `input`. This is the only fallible operation in
    /// the whole pipeline: inputs longer than [`INPUT_LIMIT`] bytes are
    /// refused.
    pub fn new(input: &str) -> (r: Result<Cursor, Error>)
        ensures
            match r {
                Ok(c) => {
                    &&& c.wf()
                    &&& c.text() == input@
                    &&& c.position() == 0
                    &&& spec_byte_len(input) <= INPUT_LIMIT
                },
                Err(e) => {
                    &&& spec_byte_len(input) > INPUT_LIMIT
                    &&& e == (Error::InputTooLarge {
                        limit: INPUT_LIMIT,
                        actual: spec_byte_len(input),
                    })
                },
            },
    {
        let len = input.len();
        if len > INPUT_LIMIT {
            return Err(Error::InputTooLarge { limit: INPUT_LIMIT, actual: len });
        }
        let chars = chars_of(input);
        let n = chars.len();
        Ok(Cursor { chars, pos: 0 })
    }

    /// The next character, without consuming it.
    pub fn peek(&self) -> (c: Option<char>)
        requires
            self.wf(),
        ensures
            c == (if self.position() < self.text().len() {
                Some(self.text()[self.position()])
            } else {
                None::<char>
            }),
    {
        if self.pos < self.chars.len() {
            Some(self.chars[self.pos])
        } else {
            None
        }
    }

    /// Consumes one character.
    pub fn next(&mut self) -> (c: Option<char>)
        requires
            old(self).wf(),
        ensures
            final(self).wf(),
            final(self).text() == old(self).text(),
            c == (if old(self).position() < old(self).text().len() {
                Some(old(self).text()[old(self).position()])
            } else {
                None::<char>
            }),
            final(self).position() == (if old(self).position() < old(self).text().len() {
                old(self).position() + 1
            } else {
                old(self).position()
            }),
    {
        if self.pos < self.chars.len() {
            let c = self.chars[self.pos];
            self.pos = self.pos + 1;
            Some(c)
        } else {
            None
        }
    }

    /// The current position.
    pub fn offset(&self) -> (n: usize)
        ensures
            n as int == self.position(),
    {
        self.pos
    }

    /// Whether `prefix` occurs at the current position; consumes nothing.
    pub fn check_prefix(&self, prefix: &Str) -> (b: bool)
        requires
            self.wf(),
        ensures
            b == matches_at(self.text(), self.position(), prefix@),
    {
        let n = prefix.len();
        if self.chars.len() - self.pos < n {
            return false;
        }
        let mut i: usize = 0;
        while i < n
            invariant
                self.wf(),
                i <= n,
                n == prefix@.len(),
                self.position() + n <= self.text().len(),
                forall|j: int| 0 <= j < i ==> self.text()[self.position() + j] == prefix@[j],
            decreases n - i,
        {
            if self.chars[self.pos + i] != prefix.char_at(i) {
                proof {
                    let p = self.position();
                    assert(self.text().subrange(p, p + prefix@.len())[i as int] != prefix@[
                        i as int
                    ]);
                }
                return false;
            }
            i += 1;
        }
        proof {
            assert(self.text().subrange(self.position(), self.position() + prefix@.len())
                =~= prefix@);
        }
        true
    }

    /// Succeeds only on an exact match at the current position; on success
    /// consumes the literal and returns the position before consumption; on
    /// failure performs no mutation.
    pub fn strip_prefix(&mut self, prefix: &Str) -> (r: Option<usize>)
        requires
            old(self).wf(),
        ensures
            final(self).wf(),
            final(self).text() == old(self).text(),
            match r {
                Some(start) => {
                    &&& matches_at(old(self).text(), old(self).position(), prefix@)
                    &&& start as int == old(self).position()
                    &&& final(self).position() == old(self).position() + prefix@.len()
                },
                None => {
                    &&& !matches_at(old(self).text(), old(self).position(), prefix@)
                    &&& final(self).position() == old(self).position()
                },
            },
    {
        if self.check_prefix(prefix) {
            let start = self.pos;
            self.pos = self.pos + prefix.len();
            Some(start)
        } else {
            None
        }
    }

    /// Advances past `n` characters already known to be there.
    pub fn skip(&mut self, n: usize)
        requires
            old(self).wf(),
            old(self).position() + n <= old(self).text().len(),
        ensures
            final(self).wf(),
            final(self).text() == old(self).text(),
            final(self).position() == old(self).position() + n,
    {
        self.pos = self.pos + n;
    }
}

} // verus!
