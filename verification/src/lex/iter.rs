//! A cursor over a one-line pattern that counts bytes.
use crate::text::{
    first_char, len_utf8, lemma_utf8_take_add, lemma_utf8_take_first, lemma_utf8_take_monotonic,
    byte_len, skip_chars, utf8_len,
};
use vstd::prelude::*;

verus! {

/// The byte offset of the character with index `pos` in `text`.
pub open spec fn byte_offset(text: Seq<char>, pos: int) -> usize {
    utf8_len(text.take(pos)) as usize
}

/// A cursor that hands out the characters of a slice one by one and knows
/// at which byte it stands.
pub struct Iter<'a> {
    str: &'a str,
    i: usize,
    pos: Ghost<int>,
}

impl<'a> Iter<'a> {
    #[verifier::type_invariant]
    spec fn inv(self) -> bool {
        &&& 0 <= self.pos@ <= self.str@.len()
        &&& self.i == utf8_len(self.str@.take(self.pos@))
        &&& utf8_len(self.str@) <= usize::MAX
    }

    /// The text that the cursor runs over.
    pub closed spec fn text(&self) -> Seq<char> {
        self.str@
    }

    /// The index, in characters, of the character that comes next.
    pub closed spec fn pos(&self) -> int {
        self.pos@
    }

    /// The cursor stands inside its text, which is no longer than a
    /// `usize` can count.
    pub open spec fn wf(&self) -> bool {
        0 <= self.pos() <= self.text().len() && utf8_len(self.text()) <= usize::MAX
    }

    /// A cursor at the start of `str`.
    pub fn new(str: &'a str) -> (r: Self)
        ensures
            r.text() == str@,
            r.pos() == 0,
            r.wf(),
    {
        let n = byte_len(str);
        proof {
            lemma_utf8_take_first(str@);
        }
        Self { str, i: 0, pos: Ghost(0) }
    }

    /// The text that has not been read yet.
    pub fn as_str(&self) -> (r: &'a str)
        ensures
            self.wf(),
            r@ == self.text().skip(self.pos()),
    {
        proof {
            use_type_invariant(self);
        }
        skip_chars(self.str, self.i, Ghost(self.pos@))
    }

    /// The next character, without reading it.
    pub fn peek(&self) -> (r: Option<char>)
        ensures
            self.wf(),
            r == (if self.pos() < self.text().len() {
                Some(self.text()[self.pos()])
            } else {
                None::<char>
            }),
    {
        first_char(self.as_str())
    }

    /// The byte offset of the next character.
    pub fn offset(&self) -> (r: usize)
        ensures
            self.wf(),
            r == byte_offset(self.text(), self.pos()),
            r == utf8_len(self.text().take(self.pos())),
    {
        proof {
            use_type_invariant(self);
            lemma_utf8_take_monotonic(self.str@, self.pos@, self.pos@);
        }
        self.i
    }

    /// Reads the next character.
    pub fn next(&mut self) -> (r: Option<char>)
        ensures
            final(self).wf(),
            final(self).text() == old(self).text(),
            r == (if old(self).pos() < old(self).text().len() {
                Some(old(self).text()[old(self).pos()])
            } else {
                None::<char>
            }),
            final(self).pos() == (if r is Some {
                old(self).pos() + 1
            } else {
                old(self).pos()
            }),
    {
        proof {
            use_type_invariant(&*self);
        }
        match self.peek() {
            None => None,
            Some(ch) => {
                let width = len_utf8(ch);
                proof {
                    lemma_utf8_take_add(self.str@, self.pos@, 1);
                    lemma_utf8_take_first(self.str@.skip(self.pos@));
                }
                *self = Iter { str: self.str, i: self.i + width, pos: Ghost(self.pos@ + 1) };
                Some(ch)
            },
        }
    }
}

} // verus!
