//! A cursor over source text that reports where each character stands.
//!
//! Carriage returns are passed over in silence: they are never handed out
//! and count for no column. A line feed ends its line.
use crate::text::{
    byte_len, first_char, len_utf8, skip_first, lemma_utf8_len_bounds, lemma_utf8_take_add,
    lemma_utf8_take_first, skip_chars, take_chars, utf8_len,
};
use vstd::prelude::*;

verus! {

/// A position in the source text: line and column, both counted from 0.
#[derive(Copy, Clone, Debug, PartialEq, Eq, Structural)]
pub struct Offset(pub usize, pub usize);

impl Offset {
    pub fn new(line: usize, column: usize) -> (r: Self)
        ensures
            r == Offset(line, column),
    {
        Self(line, column)
    }

    pub fn line(&self) -> (r: usize)
        ensures
            r == self.0,
    {
        self.0
    }

    pub fn column(&self) -> (r: usize)
        ensures
            r == self.1,
    {
        self.1
    }
}

/// The position that follows `at` once the character `ch` has been read.
pub open spec fn step(at: Offset, ch: char) -> Offset {
    if ch == '\n' {
        Offset((at.0 + 1) as usize, 0)
    } else {
        Offset(at.0, (at.1 + 1) as usize)
    }
}

/// The first index from `pos` on that does not hold a carriage return.
pub open spec fn skip_cr(text: Seq<char>, pos: int) -> int
    decreases text.len() - pos,
{
    if 0 <= pos < text.len() && text[pos] == '\r' {
        skip_cr(text, pos + 1)
    } else {
        pos
    }
}

/// `skip_cr` moves forward, stays inside the text and stops at a character
/// that is no carriage return.
pub proof fn lemma_skip_cr(text: Seq<char>, pos: int)
    requires
        0 <= pos <= text.len(),
    ensures
        pos <= skip_cr(text, pos) <= text.len(),
        skip_cr(text, pos) < text.len() ==> text[skip_cr(text, pos)] != '\r',
        forall|i: int| pos <= i < skip_cr(text, pos) ==> text[i] == '\r',
    decreases text.len() - pos,
{
    if pos < text.len() && text[pos] == '\r' {
        lemma_skip_cr(text, pos + 1);
    }
}

/// The state of a cursor: the whole text, the index of the character that
/// comes next, and the position of that character.
pub struct Cursor {
    pub text: Seq<char>,
    pub pos: int,
    pub at: Offset,
}

impl Cursor {
    /// The cursor stands inside its text, on a character that is no
    /// carriage return, and its position counts no more than the
    /// characters that lie behind it.
    pub open spec fn wf(self) -> bool {
        &&& 0 <= self.pos <= self.text.len()
        &&& self.pos < self.text.len() ==> self.text[self.pos] != '\r'
        &&& self.at.0 + self.at.1 <= self.pos
        &&& utf8_len(self.text) <= usize::MAX
    }

    /// The cursor at the start of `text`.
    pub open spec fn start(text: Seq<char>) -> Cursor {
        Cursor { text, pos: skip_cr(text, 0), at: Offset(0, 0) }
    }

    /// Whether `after` is a well-formed cursor in the same text that does
    /// not stand before this one.
    pub open spec fn reaches(self, after: Cursor) -> bool {
        after.wf() && after.text == self.text && self.pos <= after.pos
    }

    /// The text that has not been read yet.
    pub open spec fn rest(self) -> Seq<char> {
        self.text.skip(self.pos)
    }

    /// Whether nothing is left to read.
    pub open spec fn done(self) -> bool {
        self.pos >= self.text.len()
    }

    /// The character that comes next.
    pub open spec fn ch(self) -> char {
        self.text[self.pos]
    }

    /// The next character with its position, if there is one.
    pub open spec fn peek(self) -> Option<(Offset, char)> {
        if self.done() {
            None
        } else {
            Some((self.at, self.ch()))
        }
    }

    /// The cursor after the next character has been read.
    pub open spec fn next(self) -> Cursor {
        if self.done() {
            self
        } else {
            Cursor {
                text: self.text,
                pos: skip_cr(self.text, self.pos + 1),
                at: step(self.at, self.ch()),
            }
        }
    }

    /// The cursor after the longest run of characters that belong to
    /// `pred`.
    pub open spec fn skip_while<P: Pred>(self, pred: P) -> Cursor
        decreases self.text.len() - self.pos,
        when self.wf()
        via Self::skip_while_decreases::<P>
    {
        if !self.done() && pred.holds(self.ch()) {
            self.next().skip_while(pred)
        } else {
            self
        }
    }

    #[via_fn]
    proof fn skip_while_decreases<P: Pred>(self, pred: P) {
        if !self.done() {
            self.lemma_next();
        }
    }

    /// The cursor on the last character of the run that begins with the
    /// next character, whatever it is, and goes on with characters that
    /// belong to `pred`.
    pub open spec fn run_last<P: Pred>(self, pred: P) -> Cursor
        decreases self.text.len() - self.pos,
        when self.wf()
        via Self::run_last_decreases::<P>
    {
        if !self.done() && !self.next().done() && pred.holds(self.next().ch()) {
            self.next().run_last(pred)
        } else {
            self
        }
    }

    #[via_fn]
    proof fn run_last_decreases<P: Pred>(self, pred: P) {
        if !self.done() {
            self.lemma_next();
        }
    }

    /// The text from the next character to the end of the run that
    /// [`Cursor::run_last`] describes.
    pub open spec fn run_text<P: Pred>(self, pred: P) -> Seq<char> {
        self.text.subrange(self.pos, self.run_last(pred).pos + 1)
    }

    /// Reading a character keeps the cursor well-formed and moves it
    /// forward.
    pub proof fn lemma_next(self)
        requires
            self.wf(),
            !self.done(),
        ensures
            self.next().wf(),
            self.pos < self.next().pos,
            self.next().text == self.text,
            self.at.0 + self.at.1 < usize::MAX,
    {
        lemma_skip_cr(self.text, self.pos + 1);
        lemma_utf8_len_bounds(self.text);
    }

    /// Skipping a run keeps the cursor well-formed, moves it forward only,
    /// and stops at the end or on a character that fails `pred`.
    pub proof fn lemma_skip_while<P: Pred>(self, pred: P)
        requires
            self.wf(),
        ensures
            self.skip_while(pred).wf(),
            self.pos <= self.skip_while(pred).pos,
            self.skip_while(pred).text == self.text,
            self.skip_while(pred).done() || !pred.holds(self.skip_while(pred).ch()),
            self.skip_while(pred).skip_while(pred) == self.skip_while(pred),
        decreases self.text.len() - self.pos,
    {
        if !self.done() && pred.holds(self.ch()) {
            self.lemma_next();
            self.next().lemma_skip_while(pred);
        }
    }

    /// The last character of a run lies in the text, and what follows it
    /// is where skipping the rest of the run ends.
    pub proof fn lemma_run_last<P: Pred>(self, pred: P)
        requires
            self.wf(),
            !self.done(),
        ensures
            self.run_last(pred).wf(),
            self.pos <= self.run_last(pred).pos < self.text.len(),
            self.run_last(pred).text == self.text,
            self.run_last(pred).next() == self.next().skip_while(pred),
            pred.holds(self.ch()) ==> self.next().skip_while(pred) == self.skip_while(pred),
        decreases self.text.len() - self.pos,
    {
        self.lemma_next();
        if !self.next().done() && pred.holds(self.next().ch()) {
            self.next().lemma_run_last(pred);
        } else {
            assert(self.next().skip_while(pred) == self.next());
        }
    }
}

/// A stream of characters with their positions, which can be looked at
/// before it is read.
pub trait Chars<'a> {
    /// Where the stream stands.
    spec fn cursor(&self) -> Cursor;

    /// The position of the next character, or of the end of the text.
    fn offset(&self) -> (r: Offset)
        ensures
            r == self.cursor().at,
    ;

    /// The next character and its position, without reading it.
    fn peek(&self) -> (r: Option<(Offset, char)>)
        requires
            self.cursor().wf(),
        ensures
            r == self.cursor().peek(),
    ;

    /// The text that has not been read yet.
    fn as_str(&self) -> (r: &'a str)
        requires
            self.cursor().wf(),
        ensures
            r@ == self.cursor().rest(),
    ;

    /// Reads the next character.
    fn next(&mut self) -> (r: Option<(Offset, char)>)
        requires
            old(self).cursor().wf(),
        ensures
            r == old(self).cursor().peek(),
            final(self).cursor() == old(self).cursor().next(),
            old(self).cursor().reaches(final(self).cursor()),
    ;
}

/// A set of characters that can be asked for membership.
pub trait Pred {
    /// Whether the set can be asked at all.
    spec fn valid(&self) -> bool;

    /// Whether `ch` belongs to the set.
    spec fn holds(&self, ch: char) -> bool;

    fn contains(&self, ch: char) -> (b: bool)
        requires
            self.valid(),
        ensures
            b == self.holds(ch),
    ;
}

impl Pred for char {
    open spec fn valid(&self) -> bool {
        true
    }

    open spec fn holds(&self, ch: char) -> bool {
        ch == *self
    }

    fn contains(&self, ch: char) -> (b: bool) {
        ch == *self
    }
}

impl Pred for [char] {
    open spec fn valid(&self) -> bool {
        true
    }

    open spec fn holds(&self, ch: char) -> bool {
        self@.contains(ch)
    }

    fn contains(&self, ch: char) -> (b: bool) {
        let mut i: usize = 0;
        while i < self.len()
            invariant
                0 <= i <= self.len(),
                forall|j: int| 0 <= j < i ==> self@[j] != ch,
            decreases self.len() - i,
        {
            if self[i] == ch {
                return true;
            }
            i += 1;
        }
        false
    }
}

/// A function is a set of characters where it accepts every character and
/// gives one answer for each: the set of those it answers `true` for.
impl<T: Fn(char) -> bool> Pred for T {
    open spec fn valid(&self) -> bool {
        &&& forall|ch: char| self.requires((ch,))
        &&& forall|ch: char, a: bool, b: bool|
            self.ensures((ch,), a) && self.ensures((ch,), b) ==> a == b
    }

    open spec fn holds(&self, ch: char) -> bool {
        self.ensures((ch,), true)
    }

    fn contains(&self, ch: char) -> (b: bool) {
        self(ch)
    }
}

/// Reads on after a first character, through the characters that belong
/// to `pred`. `first` is the character that was read last, with its
/// position, and `s` the text from that character on. Returns the position
/// of the last character read and the slice from `first` to it.
pub(crate) fn read_run<'a, C: Chars<'a> + ?Sized, P: Pred>(
    chars: &mut C,
    pred: &P,
    s: &'a str,
    first: (Offset, char),
    Ghost(c): Ghost<Cursor>,
) -> (r: (Offset, &'a str))
    requires
        c.wf(),
        !c.done(),
        s@ == c.rest(),
        first == (c.at, c.ch()),
        old(chars).cursor() == c.next(),
        pred.valid(),
    ensures
        c.reaches(final(chars).cursor()),
        final(chars).cursor() == c.next().skip_while(*pred),
        r.0 == c.run_last(*pred).at,
        r.1@ == c.run_text(*pred),
{
    let total = byte_len(s);
    let mut size: usize = len_utf8(first.1);
    let mut last = first.0;
    let ghost mut prev = c;
    proof {
        lemma_utf8_take_first(s@);
        c.lemma_next();
    }
    loop
        invariant
            c.wf(),
            !c.done(),
            pred.valid(),
            s@ == c.rest(),
            total == utf8_len(s@),
            prev.wf(),
            prev.text == c.text,
            c.pos <= prev.pos < c.text.len(),
            chars.cursor() == prev.next(),
            chars.cursor().wf(),
            c.reaches(chars.cursor()),
            c.next().skip_while(*pred) == prev.next().skip_while(*pred),
            c.run_last(*pred) == prev.run_last(*pred),
            last == prev.at,
            size == utf8_len(s@.take(prev.pos + 1 - c.pos)),
        ensures
            c.reaches(chars.cursor()),
            chars.cursor() == c.next().skip_while(*pred),
            prev.text == c.text,
            c.pos <= prev.pos < c.text.len(),
            prev == c.run_last(*pred),
            last == prev.at,
            size == utf8_len(s@.take(prev.pos + 1 - c.pos)),
        decreases c.text.len() - prev.pos,
    {
        let ghost cur = chars.cursor();
        proof {
            prev.lemma_next();
        }
        match chars.peek() {
            None => {
                break ;
            },
            Some((offset, ch)) => {
                if !pred.contains(ch) {
                    break ;
                }
                let here = byte_len(chars.as_str());
                let width = len_utf8(ch);
                proof {
                    prev.lemma_next();
                    cur.lemma_next();
                    let d = cur.pos - c.pos;
                    assert(s@.skip(d) =~= cur.rest());
                    lemma_utf8_take_add(s@, d, 1);
                    crate::text::lemma_utf8_split(s@, d);
                    lemma_utf8_take_first(s@.skip(d));
                    assert(prev.run_last(*pred) == cur.run_last(*pred));
                    assert(cur.skip_while(*pred) == cur.next().skip_while(*pred));
                }
                chars.next();
                last = offset;
                size = total - here + width;
                proof {
                    prev = cur;
                }
            },
        }
    }
    (last, take_chars(s, size, Ghost(prev.pos + 1 - c.pos)))
}

/// Reads the longest run of characters that belong to `pred`. Returns the
/// position of the first and of the last character of the run and the
/// slice of the text from the one to the other, or `None`, reading
/// nothing, where the next character does not belong to `pred`.
pub fn read_while<'a, C: Chars<'a> + ?Sized, P: Pred>(chars: &mut C, pred: P) -> (r: Option<
    (Offset, Offset, &'a str),
>)
    requires
        old(chars).cursor().wf(),
        pred.valid(),
    ensures
        old(chars).cursor().reaches(final(chars).cursor()),
        ({
            let c = old(chars).cursor();
            if c.done() || !pred.holds(c.ch()) {
                r is None && final(chars).cursor() == c
            } else {
                &&& final(chars).cursor() == c.skip_while(pred)
                &&& r matches Some((begin, end, text))
                &&& begin == c.at
                &&& end == c.run_last(pred).at
                &&& text@ == c.run_text(pred)
            }
        }),
{
    let ghost c = chars.cursor();
    let first = match chars.peek() {
        Some((offset, ch)) => {
            if !pred.contains(ch) {
                return None;
            }
            (offset, ch)
        },
        None => {
            return None;
        },
    };
    let s = chars.as_str();
    proof {
        c.lemma_run_last(pred);
    }
    chars.next();
    let (last, text) = read_run(chars, &pred, s, first, Ghost(c));
    Some((first.0, last, text))
}

/// Reads the longest run of characters that belong to `pred`.
pub fn skip_while<'a, C: Chars<'a> + ?Sized, P: Pred>(chars: &mut C, pred: P)
    requires
        old(chars).cursor().wf(),
        pred.valid(),
    ensures
        old(chars).cursor().reaches(final(chars).cursor()),
        final(chars).cursor() == old(chars).cursor().skip_while(pred),
{
    let ghost c = chars.cursor();
    loop
        invariant
            pred.valid(),
            c.reaches(chars.cursor()),
            c.skip_while(pred) == chars.cursor().skip_while(pred),
        ensures
            c.reaches(chars.cursor()),
            chars.cursor() == c.skip_while(pred),
        decreases chars.cursor().text.len() - chars.cursor().pos,
    {
        let ch = match chars.peek() {
            None => {
                break ;
            },
            Some((_, ch)) => ch,
        };
        if !pred.contains(ch) {
            break ;
        }
        proof {
            chars.cursor().lemma_next();
        }
        chars.next();
    }
}

/// The character behind the next one, without reading either.
pub fn peek_second<'a, C: Chars<'a> + ?Sized>(chars: &C) -> (r: Option<char>)
    requires
        chars.cursor().wf(),
    ensures
        r == (if chars.cursor().done() || chars.cursor().next().done() {
            None::<char>
        } else {
            Some(chars.cursor().next().ch())
        }),
{
    let ghost c = chars.cursor();
    let s = chars.as_str();
    match first_char(s) {
        None => None,
        Some(_) => {
            let after = skip_first(s);
            proof {
                c.lemma_next();
                assert(s@.drop_first() =~= c.text.skip(c.pos + 1));
            }
            let (rest, _) = trim_cr(after, Ghost(c.text), Ghost(c.pos + 1));
            first_char(rest)
        },
    }
}

/// A cursor over a string slice.
pub struct Iter<'a> {
    rest: &'a str,
    offset: Offset,
    text: Ghost<Seq<char>>,
    pos: Ghost<int>,
}

impl<'a> Iter<'a> {
    #[verifier::type_invariant]
    spec fn inv(self) -> bool {
        &&& self.rest@ == self.text@.skip(self.pos@)
        &&& 0 <= self.pos@ <= self.text@.len()
    }

    /// A cursor at the start of `text`.
    pub fn new(text: &'a str) -> (r: Self)
        ensures
            r.cursor() == Cursor::start(text@),
            r.cursor().wf(),
    {
        let n = byte_len(text);
        assert(text@.skip(0) =~= text@);
        let (rest, Ghost(pos)) = trim_cr(text, Ghost(text@), Ghost(0));
        Iter { rest, offset: Offset::new(0, 0), text: Ghost(text@), pos: Ghost(pos) }
    }
}

/// The slice that follows the carriage returns at the start of `s`.
fn trim_cr<'a>(s: &'a str, Ghost(text): Ghost<Seq<char>>, Ghost(pos): Ghost<int>) -> (r: (
    &'a str,
    Ghost<int>,
))
    requires
        0 <= pos <= text.len(),
        s@ == text.skip(pos),
    ensures
        r.1@ == skip_cr(text, pos),
        r.0@ == text.skip(r.1@),
        pos <= r.1@ <= text.len(),
        r.1@ < text.len() ==> text[r.1@] != '\r',
{
    let mut rest = s;
    let ghost mut p = pos;
    loop
        invariant
            0 <= pos <= p <= text.len(),
            rest@ == text.skip(p),
            skip_cr(text, pos) == skip_cr(text, p),
        ensures
            0 <= pos <= p <= text.len(),
            rest@ == text.skip(p),
            skip_cr(text, pos) == p,
            p < text.len() ==> text[p] != '\r',
        decreases text.len() - p,
    {
        match first_char(rest) {
            Some(c) if c == '\r' => {
                proof {
                    lemma_utf8_take_first(rest@);
                    assert(rest@.skip(1) =~= text.skip(p + 1));
                }
                rest = skip_chars(rest, 1, Ghost(1));
                proof {
                    p = p + 1;
                }
            },
            _ => {
                break ;
            },
        }
    }
    (rest, Ghost(p))
}

impl<'a> From<&'a str> for Iter<'a> {
    fn from(value: &'a str) -> (r: Self)
        ensures
            r.cursor() == Cursor::start(value@),
            r.cursor().wf(),
    {
        Iter::new(value)
    }
}

impl<'a> vstd::std_specs::convert::FromSpecImpl<&'a str> for Iter<'a> {
    open spec fn obeys_from_spec() -> bool {
        false
    }

    open spec fn from_spec(v: &'a str) -> Self {
        arbitrary()
    }
}

impl<'a> Chars<'a> for Iter<'a> {
    closed spec fn cursor(&self) -> Cursor {
        Cursor { text: self.text@, pos: self.pos@, at: self.offset }
    }

    fn offset(&self) -> (r: Offset) {
        self.offset
    }

    fn peek(&self) -> (r: Option<(Offset, char)>) {
        proof {
            use_type_invariant(self);
        }
        match first_char(self.rest) {
            Some(ch) => Some((self.offset, ch)),
            None => None,
        }
    }

    fn as_str(&self) -> (r: &'a str) {
        proof {
            use_type_invariant(self);
        }
        self.rest
    }

    fn next(&mut self) -> (r: Option<(Offset, char)>) {
        proof {
            use_type_invariant(&*self);
        }
        let ghost c = self.cursor();
        match first_char(self.rest) {
            None => None,
            Some(ch) => {
                proof {
                    c.lemma_next();
                    lemma_utf8_take_first(self.rest@);
                    assert(self.rest@.skip(1) =~= c.text.skip(c.pos + 1));
                }
                let after = skip_chars(self.rest, len_utf8(ch), Ghost(1));
                let (rest, Ghost(pos)) = trim_cr(after, Ghost(c.text), Ghost(c.pos + 1));
                let offset = self.offset;
                let moved = if ch == '\n' {
                    Offset::new(offset.line() + 1, 0)
                } else {
                    Offset::new(offset.line(), offset.column() + 1)
                };
                *self = Iter { rest, offset: moved, text: Ghost(c.text), pos: Ghost(pos) };
                Some((offset, ch))
            },
        }
    }
}

} // verus!
