//! The parser for the body of a rule: pattern text up to the closing `;`.
//!
//! What the parser accepts is laid down by functions on a [`Cursor`]:
//! each takes the cursor at the start of a construct and gives either the
//! value of the construct with the cursor behind it, or the error. The
//! executable parser is proved to compute exactly these.
use crate::digits::{
    dec_value, hex_digit, hex_value, is_ascii_digit, is_digit, nibble, parse_decimal, parse_hex,
};
use crate::error::{Error, ErrorKind, ErrorModel, KindModel};
use crate::iter::{
    peek_second, read_run, read_while, skip_while, Chars, Cursor, Offset, Pred,
};
use crate::pattern::pattern::{
    all_wf, lemma_views, views, Class, ClassItem, Pattern, PatternModel, Quantifier,
};
use crate::store::{id_of, interned, lemma_grows, lemma_unchanged, Store};
use crate::text::{byte_len, len_utf8, take_chars};
use vstd::prelude::*;
use vstd::utf8::is_scalar;

verus! {

/// What `char::is_alphanumeric` answers for `ch`.
pub uninterp spec fn alphanumeric(ch: char) -> bool;

/// `char::is_alphanumeric` tells whether a character is a letter or a
/// number by the Unicode tables; its answer depends on the character alone.
pub assume_specification[ char::is_alphanumeric ](ch: char) -> (r: bool)
    ensures
        r == alphanumeric(ch),
;

/// `char::from_u32` gives the character with the given code where that
/// code is a Unicode scalar value, and `None` where it is not.
pub assume_specification[ char::from_u32 ](i: u32) -> (r: Option<char>)
    ensures
        r == (if is_scalar(i) {
            Some(i as char)
        } else {
            None::<char>
        }),
;

/// `String::push` appends one character to the end of the string.
pub assume_specification[ String::push ](s: &mut String, ch: char)
    ensures
        final(s)@ == old(s)@.push(ch),
;

/// Blank, or one of the control characters from tab to carriage return.
pub open spec fn is_space(ch: char) -> bool {
    ch == ' ' || ('\t' <= ch && ch <= '\r')
}

/// Whether `ch` separates items: a blank or one of the control characters
/// from tab to carriage return, the vertical tab among them.
pub fn is_whitespace(ch: char) -> (r: bool)
    ensures
        r == is_space(ch),
{
    ch == ' ' || ('\t' <= ch && ch <= '\r')
}

/// The sets of characters that the parsers read runs of.
#[derive(Clone, Copy, Debug, PartialEq, Eq)]
pub enum CharSet {
    /// What [`is_whitespace`] accepts.
    Whitespace,
    /// What [`is_whitespace`] rejects.
    Solid,
    /// `0` to `9`.
    Digit,
    /// `0` to `9`, `a` to `f` and `A` to `F`.
    HexDigit,
    /// Letters, numbers and `_`.
    Word,
    /// What may stand in the name that heads a rule: neither whitespace
    /// nor `:`.
    Head,
    /// Anything but a line feed.
    Line,
}

impl CharSet {
    /// Whether `ch` belongs to the set.
    pub open spec fn has(self, ch: char) -> bool {
        match self {
            CharSet::Whitespace => is_space(ch),
            CharSet::Solid => !is_space(ch),
            CharSet::Digit => is_digit(ch),
            CharSet::HexDigit => hex_digit(ch) is Some,
            CharSet::Word => alphanumeric(ch) || ch == '_',
            CharSet::Head => !is_space(ch) && ch != ':',
            CharSet::Line => ch != '\n',
        }
    }
}

impl Pred for CharSet {
    open spec fn valid(&self) -> bool {
        true
    }

    open spec fn holds(&self, ch: char) -> bool {
        self.has(ch)
    }

    fn contains(&self, ch: char) -> (b: bool) {
        match self {
            CharSet::Whitespace => is_whitespace(ch),
            CharSet::Solid => !is_whitespace(ch),
            CharSet::Digit => is_ascii_digit(ch),
            CharSet::HexDigit => nibble(ch).is_some(),
            CharSet::Word => ch.is_alphanumeric() || ch == '_',
            CharSet::Head => !is_whitespace(ch) && ch != ':',
            CharSet::Line => ch != '\n',
        }
    }
}

/// The character that a one-letter escape stands for.
pub open spec fn plain_escape(ch: char) -> Option<char> {
    if ch == 'n' {
        Some('\n')
    } else if ch == 'r' {
        Some('\r')
    } else if ch == 't' {
        Some('\t')
    } else if ch == 'v' {
        Some('\x0B')
    } else if ch == '\\' || ch == '\'' || ch == '{' || ch == '}' || ch == '[' || ch == ']' || ch
        == '(' || ch == ')' || ch == '|' || ch == '?' || ch == '*' || ch == '+' || ch == '"' {
        Some(ch)
    } else {
        None
    }
}

/// The error for an escape sequence that began at index `bs` of the text
/// and went wrong with the character at index `end`.
pub open spec fn bad_escape(c: Cursor, bs: int, end: int) -> KindModel {
    KindModel::InvalidEscape(c.text.subrange(bs, end + 1))
}

/// An escape sequence, the cursor standing behind its backslash, which
/// stood at index `bs` of the text and at the position `begin`.
pub open spec fn escape_at(c: Cursor, begin: Offset, bs: int) -> Result<(char, Cursor), ErrorModel> {
    if c.done() {
        Err(KindModel::UnclosedEscape.at(begin))
    } else if c.ch() == 'x' {
        hex_escape(c.next(), begin, bs)
    } else if c.ch() == 'u' {
        unicode_escape(c.next(), begin, bs)
    } else {
        match plain_escape(c.ch()) {
            Some(v) => Ok((v, c.next())),
            None => Err(bad_escape(c, bs, c.pos).at(begin)),
        }
    }
}

/// `\xHH`: exactly two hexadecimal digits, the cursor standing behind the
/// `x`.
pub open spec fn hex_escape(c: Cursor, begin: Offset, bs: int) -> Result<(char, Cursor), ErrorModel> {
    if c.done() {
        Err(KindModel::UnclosedEscape.at(begin))
    } else {
        match hex_digit(c.ch()) {
            None => Err(bad_escape(c, bs, c.pos).at(c.at)),
            Some(high) => {
                let d = c.next();
                if d.done() {
                    Err(KindModel::UnclosedEscape.at(begin))
                } else {
                    match hex_digit(d.ch()) {
                        None => Err(bad_escape(d, bs, d.pos).at(d.at)),
                        Some(low) => Ok((((high * 16 + low) as u8) as char, d.next())),
                    }
                }
            },
        }
    }
}

/// `\u{H..}`: one or more hexadecimal digits in braces that write a
/// Unicode scalar value, the cursor standing behind the `u`.
pub open spec fn unicode_escape(c: Cursor, begin: Offset, bs: int) -> Result<
    (char, Cursor),
    ErrorModel,
> {
    if c.done() {
        Err(KindModel::UnclosedEscape.at(begin))
    } else if c.ch() != '{' {
        Err(bad_escape(c, bs, c.pos).at(begin))
    } else {
        let d = c.next();
        if d.done() {
            Err(KindModel::UnclosedEscape.at(begin))
        } else if hex_digit(d.ch()) is None {
            Err(bad_escape(d, bs, d.pos).at(begin))
        } else {
            let e = d.skip_while(CharSet::HexDigit);
            let value = hex_value(d.run_text(CharSet::HexDigit));
            if value > u32::MAX {
                Err(KindModel::NumberTooBig.at(d.at))
            } else if e.done() {
                Err(KindModel::UnclosedEscape.at(d.at))
            } else if e.ch() != '}' {
                Err(bad_escape(e, bs, e.pos).at(d.at))
            } else if !is_scalar(value as u32) {
                Err(KindModel::InvalidUnicode.at(d.at))
            } else {
                Ok(((value as u32) as char, e.next()))
            }
        }
    }
}

/// Whether `c` stands further on in the same text as `from`, well-formed.
pub open spec fn moved(from: Cursor, c: Cursor) -> bool {
    c.wf() && c.text == from.text && from.pos < c.pos
}

/// An escape sequence that is accepted moves the cursor on.
pub proof fn lemma_escape_at(c: Cursor, begin: Offset, bs: int)
    requires
        c.wf(),
    ensures
        escape_at(c, begin, bs) matches Ok((_, after)) ==> moved(c, after),
{
    if !c.done() {
        c.lemma_next();
        let d = c.next();
        if !d.done() {
            d.lemma_next();
            let e = d.next();
            if c.ch() == 'u' && d.ch() == '{' && !e.done() {
                e.lemma_skip_while(CharSet::HexDigit);
                let f = e.skip_while(CharSet::HexDigit);
                if !f.done() {
                    f.lemma_next();
                }
            }
            if c.ch() == 'x' && !e.done() {
                e.lemma_next();
            }
        }
    }
}

/// The rest of a quoted literal, `acc` being what has been read of it and
/// `begin` where its opening quote stood.
pub open spec fn literal_from(c: Cursor, begin: Offset, acc: Seq<char>) -> Result<
    (Seq<char>, Cursor),
    ErrorModel,
>
    decreases c.text.len() - c.pos,
    when c.wf()
{
    if c.done() {
        Err(KindModel::UnclosedLiteral.at(begin))
    } else if c.ch() == '\'' {
        Ok((acc, c.next()))
    } else if c.ch() == '\\' {
        match escape_at(c.next(), c.at, c.pos) {
            Err(e) => Err(e),
            Ok((v, after)) => if moved(c, after) {
                literal_from(after, begin, acc.push(v))
            } else {
                Err(KindModel::UnclosedLiteral.at(begin))
            },
        }
    } else {
        proof {
            c.lemma_next();
        }
        literal_from(c.next(), begin, acc.push(c.ch()))
    }
}

/// A literal that is accepted moves the cursor on.
pub proof fn lemma_literal_from(c: Cursor, begin: Offset, acc: Seq<char>)
    requires
        c.wf(),
    ensures
        literal_from(c, begin, acc) matches Ok((_, after)) ==> moved(c, after),
    decreases c.text.len() - c.pos,
{
    if !c.done() {
        c.lemma_next();
        if c.ch() == '\'' {
        } else if c.ch() == '\\' {
            lemma_escape_at(c.next(), c.at, c.pos);
            if let Ok((v, after)) = escape_at(c.next(), c.at, c.pos) {
                lemma_literal_from(after, begin, acc.push(v));
            }
        } else {
            lemma_literal_from(c.next(), begin, acc.push(c.ch()));
        }
    }
}

/// One member of a class: a character, or two of them with `-` between
/// for a range. Either may be written as an escape sequence.
pub open spec fn class_item(c: Cursor) -> Result<(ClassItem, Cursor), ErrorModel> {
    let first = if c.ch() == '\\' {
        escape_at(c.next(), c.at, c.pos)
    } else {
        Ok((c.ch(), c.next()))
    };
    match first {
        Err(e) => Err(e),
        Ok((ch, d)) => if !d.done() && d.ch() == '-' {
            let e = d.next();
            if e.done() || e.ch() == ']' {
                Err(KindModel::UnclosedClassItem.at(c.at))
            } else if e.ch() == '\\' {
                match escape_at(e.next(), e.at, e.pos) {
                    Err(err) => Err(err),
                    Ok((end, after)) => Ok((ClassItem::Range(ch, end), after)),
                }
            } else {
                Ok((ClassItem::Range(ch, e.ch()), e.next()))
            }
        } else {
            Ok((ClassItem::Char(ch), d))
        },
    }
}

/// A class member that is accepted moves the cursor on.
pub proof fn lemma_class_item(c: Cursor)
    requires
        c.wf(),
        !c.done(),
    ensures
        class_item(c) matches Ok((_, after)) ==> moved(c, after),
{
    c.lemma_next();
    lemma_escape_at(c.next(), c.at, c.pos);
    let first = if c.ch() == '\\' {
        escape_at(c.next(), c.at, c.pos)
    } else {
        Ok((c.ch(), c.next()))
    };
    if let Ok((ch, d)) = first {
        if !d.done() {
            d.lemma_next();
            let e = d.next();
            if !e.done() {
                e.lemma_next();
                lemma_escape_at(e.next(), e.at, e.pos);
            }
        }
    }
}

/// Whether the `-` at the cursor is a range's dash with no lower end: it
/// follows a range and does not stand right before the closing `]`, where
/// a dash stands for itself.
pub open spec fn dangling_dash(c: Cursor, list: Seq<ClassItem>) -> bool {
    &&& c.ch() == '-'
    &&& list.len() > 0
    &&& list.last() is Range
    &&& !(!c.next().done() && c.next().ch() == ']')
}

/// The members of a class up to its closing `]`, `list` being those read
/// so far and `begin` where the opening `[` stood. A `-` that follows a
/// range has nothing to start from, unless it is the last character of
/// the class, which stands for itself.
pub open spec fn class_items(c: Cursor, begin: Offset, list: Seq<ClassItem>) -> Result<
    (Seq<ClassItem>, Cursor),
    ErrorModel,
>
    decreases c.text.len() - c.pos,
    when c.wf()
{
    if c.done() {
        Err(KindModel::UnclosedClass.at(begin))
    } else if c.ch() == ']' {
        Ok((list, c.next()))
    } else if dangling_dash(c, list) {
        Err(KindModel::MissingPrefix.at(c.at))
    } else {
        match class_item(c) {
            Err(e) => Err(e),
            Ok((item, after)) => if moved(c, after) {
                class_items(after, begin, list.push(item))
            } else {
                Err(KindModel::UnclosedClass.at(begin))
            },
        }
    }
}

/// A character class, the cursor standing behind its `[`, which stood at
/// `begin`: an optional `^` that makes the class a denying one, then the
/// members up to `]`.
pub open spec fn class_at(c: Cursor, begin: Offset) -> Result<
    ((bool, Seq<ClassItem>), Cursor),
    ErrorModel,
> {
    let deny = !c.done() && c.ch() == '^';
    let d = if deny {
        c.next()
    } else {
        c
    };
    match class_items(d, begin, Seq::empty()) {
        Err(e) => Err(e),
        Ok((list, after)) => Ok(((deny, list), after)),
    }
}

/// Class members that are accepted move the cursor on.
pub proof fn lemma_class_items(c: Cursor, begin: Offset, list: Seq<ClassItem>)
    requires
        c.wf(),
    ensures
        class_items(c, begin, list) matches Ok((_, after)) ==> moved(c, after),
    decreases c.text.len() - c.pos,
{
    if !c.done() {
        c.lemma_next();
        if c.ch() != ']' {
            lemma_class_item(c);
            if let Ok((item, after)) = class_item(c) {
                lemma_class_items(after, begin, list.push(item));
            }
        }
    }
}

/// A class that is accepted moves the cursor on.
pub proof fn lemma_class_at(c: Cursor, begin: Offset)
    requires
        c.wf(),
    ensures
        class_at(c, begin) matches Ok((_, after)) ==> moved(c, after),
{
    if !c.done() {
        c.lemma_next();
        lemma_class_items(c.next(), begin, Seq::empty());
    }
    lemma_class_items(c, begin, Seq::empty());
}

/// The upper bound of a `{..}` quantifier and its closing brace, the
/// cursor standing behind the comma. With `required` unset the bound may be
/// left out, for "no upper bound".
pub open spec fn upper_bound(c: Cursor, begin: Offset, min: usize, required: bool) -> Result<
    ((usize, usize), Cursor),
    ErrorModel,
> {
    if c.done() {
        Err(KindModel::UnclosedQuantifier.at(begin))
    } else if is_digit(c.ch()) {
        let d = c.skip_while(CharSet::Digit);
        let max = dec_value(c.run_text(CharSet::Digit));
        if max > usize::MAX {
            Err(KindModel::NumberTooBig.at(c.at))
        } else if d.done() {
            Err(KindModel::UnclosedQuantifier.at(begin))
        } else if d.ch() != '}' {
            Err(KindModel::MalformedQuantifier.at(d.at))
        } else if min > max {
            Err(KindModel::MalformedQuantifier.at(begin))
        } else {
            Ok(((min, max as usize), d.next()))
        }
    } else if required {
        Err(KindModel::MalformedQuantifier.at(begin))
    } else if c.ch() == '}' {
        Ok(((min, usize::MAX), c.next()))
    } else {
        Err(KindModel::MalformedQuantifier.at(c.at))
    }
}

/// The bounds of a `{..}` quantifier, the cursor standing behind its `{`,
/// which stood at `begin`: `{n}`, `{n,}`, `{,m}` or `{n,m}`.
pub open spec fn quantifier_at(c: Cursor, begin: Offset) -> Result<
    ((usize, usize), Cursor),
    ErrorModel,
> {
    if c.done() {
        Err(KindModel::UnclosedQuantifier.at(begin))
    } else if c.ch() == ',' {
        upper_bound(c.next(), begin, 0, true)
    } else if !is_digit(c.ch()) {
        Err(KindModel::MalformedQuantifier.at(begin))
    } else {
        let d = c.skip_while(CharSet::Digit);
        let min = dec_value(c.run_text(CharSet::Digit));
        if min > usize::MAX {
            Err(KindModel::NumberTooBig.at(c.at))
        } else if d.done() {
            Err(KindModel::UnclosedQuantifier.at(begin))
        } else if d.ch() == ',' {
            upper_bound(d.next(), begin, min as usize, false)
        } else if d.ch() == '}' {
            Ok(((min as usize, min as usize), d.next()))
        } else {
            Err(KindModel::MalformedQuantifier.at(d.at))
        }
    }
}

/// Bounds that are accepted are in order and move the cursor on.
pub proof fn lemma_quantifier_at(c: Cursor, begin: Offset)
    requires
        c.wf(),
    ensures
        quantifier_at(c, begin) matches Ok(((min, max), after)) ==> min <= max && moved(c, after),
{
    if !c.done() {
        c.lemma_next();
        c.lemma_skip_while(CharSet::Digit);
        let d = if c.ch() == ',' {
            c
        } else {
            c.skip_while(CharSet::Digit)
        };
        if !d.done() {
            d.lemma_next();
            let e = d.next();
            if !e.done() {
                e.lemma_next();
                e.lemma_skip_while(CharSet::Digit);
                let f = e.skip_while(CharSet::Digit);
                if !f.done() {
                    f.lemma_next();
                }
            }
        }
    }
}

/// The outcome of reading one item: whether more items may follow, where
/// the cursor stands, the items collected and the names interned.
pub struct Step {
    pub more: bool,
    pub cur: Cursor,
    pub stack: Seq<PatternModel>,
    pub names: Seq<Seq<char>>,
}

/// The items `stack` with the last of them replaced by `top`.
pub open spec fn replace_top(stack: Seq<PatternModel>, top: PatternModel) -> Seq<PatternModel> {
    stack.drop_last().push(top)
}

/// A reference to a rule, the cursor standing on the first character of
/// its name: that character, whatever it is, and the run of letters,
/// numbers and `_` behind it. `@` and a run of non-blank characters may
/// follow, for a capture name. Both names are interned.
pub open spec fn reference_at(c: Cursor, names: Seq<Seq<char>>) -> Result<
    (PatternModel, Cursor, Seq<Seq<char>>),
    ErrorModel,
> {
    let ident = c.run_text(CharSet::Word);
    let d = c.next().skip_while(CharSet::Word);
    let id = id_of(names, ident) as usize;
    let named = interned(names, ident);
    if !d.done() && d.ch() == '@' {
        let e = d.next();
        if e.done() || is_space(e.ch()) {
            Err(KindModel::EmptyName.at(d.at))
        } else {
            let name = e.run_text(CharSet::Solid);
            Ok(
                (
                    PatternModel::Reference(id, Some(id_of(named, name) as usize)),
                    e.skip_while(CharSet::Solid),
                    interned(named, name),
                ),
            )
        }
    } else {
        Ok((PatternModel::Reference(id, None), d, named))
    }
}

/// A reference that is accepted moves the cursor on.
pub proof fn lemma_reference_at(c: Cursor, names: Seq<Seq<char>>)
    requires
        c.wf(),
        !c.done(),
    ensures
        reference_at(c, names) matches Ok((_, after, _)) ==> moved(c, after),
{
    c.lemma_next();
    c.next().lemma_skip_while(CharSet::Word);
    let d = c.next().skip_while(CharSet::Word);
    if !d.done() {
        d.lemma_next();
        d.next().lemma_skip_while(CharSet::Solid);
    }
}

/// One step of the parser at `c`: blanks are passed over, then either the
/// closing `;` is read, or one item is read and put on `stack`. A postfix
/// operator or `|` takes the last item of `stack` as its operand.
pub open spec fn item_step(c: Cursor, stack: Seq<PatternModel>, names: Seq<Seq<char>>) -> Result<
    Step,
    ErrorModel,
>
    decreases c.text.len() - c.pos, 0nat,
    when c.wf()
{
    let c0 = c.skip_while(CharSet::Whitespace);
    if c0.done() {
        Err(KindModel::UnexpectedEOF.at(c0.at))
    } else {
        let i = c0.at;
        let ch = c0.ch();
        let c1 = c0.next();
        if !(c.pos <= c0.pos && c0.wf() && c0.text == c.text && moved(c0, c1)) {
            Err(KindModel::UnexpectedEOF.at(c0.at))
        } else if ch == ';' {
            Ok(Step { more: false, cur: c1, stack, names })
        } else if ch == '\'' {
            match literal_from(c1, i, Seq::empty()) {
                Err(e) => Err(e),
                Ok((lit, after)) => Ok(
                    Step {
                        more: true,
                        cur: after,
                        stack: stack.push(PatternModel::Literal(lit)),
                        names,
                    },
                ),
            }
        } else if ch == '.' {
            Ok(
                Step {
                    more: true,
                    cur: c1,
                    stack: stack.push(PatternModel::Class(true, Seq::empty())),
                    names,
                },
            )
        } else if ch == '[' {
            match class_at(c1, i) {
                Err(e) => Err(e),
                Ok(((deny, list), after)) => Ok(
                    Step {
                        more: true,
                        cur: after,
                        stack: stack.push(PatternModel::Class(deny, list)),
                        names,
                    },
                ),
            }
        } else if ch == '(' {
            match group_from(c1, i, Seq::empty(), names) {
                Err(e) => Err(e),
                Ok((items, after, named)) => Ok(
                    Step {
                        more: true,
                        cur: after,
                        stack: stack.push(PatternModel::Group(items)),
                        names: named,
                    },
                ),
            }
        } else if ch == '|' {
            if stack.len() == 0 {
                Err(KindModel::MissingPrefix.at(i))
            } else {
                let alts = match stack.last() {
                    PatternModel::Or(v) => v,
                    other => seq![other],
                };
                match item_step(c1, Seq::empty(), names) {
                    Err(e) => Err(e),
                    Ok(s) => if !s.more || s.stack.len() == 0 {
                        Err(KindModel::MissingSuffix.at(i))
                    } else {
                        Ok(
                            Step {
                                more: true,
                                cur: s.cur,
                                stack: replace_top(
                                    stack,
                                    PatternModel::Or(alts.push(s.stack.last())),
                                ),
                                names: s.names,
                            },
                        )
                    },
                }
            }
        } else if ch == '?' || ch == '*' || ch == '+' {
            if stack.len() == 0 {
                Err(KindModel::MissingPrefix.at(i))
            } else {
                let min: usize = if ch == '+' {
                    1
                } else {
                    0
                };
                let max: usize = if ch == '?' {
                    1
                } else {
                    usize::MAX
                };
                Ok(
                    Step {
                        more: true,
                        cur: c1,
                        stack: replace_top(
                            stack,
                            PatternModel::Quantifier(min, max, Box::new(stack.last())),
                        ),
                        names,
                    },
                )
            }
        } else if ch == '{' {
            if stack.len() == 0 {
                Err(KindModel::MissingPrefix.at(i))
            } else {
                match quantifier_at(c1, i) {
                    Err(e) => Err(e),
                    Ok(((min, max), after)) => Ok(
                        Step {
                            more: true,
                            cur: after,
                            stack: replace_top(
                                stack,
                                PatternModel::Quantifier(min, max, Box::new(stack.last())),
                            ),
                            names,
                        },
                    ),
                }
            }
        } else if ch == ')' || ch == ']' || ch == '}' {
            Err(KindModel::CloserMismatched.at(i))
        } else {
            match reference_at(c0, names) {
                Err(e) => Err(e),
                Ok((pat, after, named)) => Ok(
                    Step { more: true, cur: after, stack: stack.push(pat), names: named },
                ),
            }
        }
    }
}

/// The items of a group up to its closing `)`, `items` being those read so
/// far and `begin` where the opening `(` stood.
pub open spec fn group_from(
    c: Cursor,
    begin: Offset,
    items: Seq<PatternModel>,
    names: Seq<Seq<char>>,
) -> Result<(Seq<PatternModel>, Cursor, Seq<Seq<char>>), ErrorModel>
    decreases c.text.len() - c.pos, 1nat,
    when c.wf()
{
    let c0 = c.skip_while(CharSet::Whitespace);
    if !(c.pos <= c0.pos && c0.wf() && c0.text == c.text) {
        Err(KindModel::UnclosedGroup.at(begin))
    } else if c0.done() {
        Err(KindModel::UnclosedGroup.at(begin))
    } else if c0.ch() == ')' {
        Ok((items, c0.next(), names))
    } else {
        match item_step(c0, items, names) {
            Err(e) => Err(e),
            Ok(s) => if !s.more {
                Err(KindModel::UnclosedGroup.at(begin))
            } else if moved(c0, s.cur) {
                group_from(s.cur, begin, s.stack, s.names)
            } else {
                Err(KindModel::UnclosedGroup.at(begin))
            },
        }
    }
}

/// The items of a rule body up to its closing `;`, `items` being those
/// read so far.
pub open spec fn body_from(c: Cursor, items: Seq<PatternModel>, names: Seq<Seq<char>>) -> Result<
    (Seq<PatternModel>, Cursor, Seq<Seq<char>>),
    ErrorModel,
>
    decreases c.text.len() - c.pos,
    when c.wf()
{
    match item_step(c, items, names) {
        Err(e) => Err(e),
        Ok(s) => if !s.more {
            Ok((s.stack, s.cur, s.names))
        } else if moved(c, s.cur) {
            body_from(s.cur, s.stack, s.names)
        } else {
            Err(KindModel::UnexpectedEOF.at(c.at))
        },
    }
}

/// A step that is accepted moves the cursor on, and where it read an item
/// it leaves at least that item on the stack.
pub proof fn lemma_item_step(c: Cursor, stack: Seq<PatternModel>, names: Seq<Seq<char>>)
    requires
        c.wf(),
    ensures
        item_step(c, stack, names) matches Ok(s) ==> moved(c, s.cur) && (s.more ==> s.stack.len()
            > 0),
    decreases c.text.len() - c.pos, 0nat,
{
    c.lemma_skip_while(CharSet::Whitespace);
    let c0 = c.skip_while(CharSet::Whitespace);
    if !c0.done() {
        c0.lemma_next();
        let i = c0.at;
        let ch = c0.ch();
        let c1 = c0.next();
        if ch == '\'' {
            lemma_literal_from(c1, i, Seq::empty());
        } else if ch == '[' {
            lemma_class_at(c1, i);
        } else if ch == '(' {
            lemma_group_from(c1, i, Seq::empty(), names);
        } else if ch == '|' {
            lemma_item_step(c1, Seq::empty(), names);
        } else if ch == '{' {
            lemma_quantifier_at(c1, i);
        } else {
            lemma_reference_at(c0, names);
        }
    }
}

/// A group that is accepted moves the cursor on.
pub proof fn lemma_group_from(
    c: Cursor,
    begin: Offset,
    items: Seq<PatternModel>,
    names: Seq<Seq<char>>,
)
    requires
        c.wf(),
    ensures
        group_from(c, begin, items, names) matches Ok((_, after, _)) ==> moved(c, after),
    decreases c.text.len() - c.pos, 1nat,
{
    c.lemma_skip_while(CharSet::Whitespace);
    let c0 = c.skip_while(CharSet::Whitespace);
    if !c0.done() {
        c0.lemma_next();
        if c0.ch() != ')' {
            lemma_item_step(c0, items, names);
            if let Ok(s) = item_step(c0, items, names) {
                if s.more {
                    lemma_group_from(s.cur, begin, s.stack, s.names);
                }
            }
        }
    }
}

/// A rule body that is accepted moves the cursor on.
pub proof fn lemma_body_from(c: Cursor, items: Seq<PatternModel>, names: Seq<Seq<char>>)
    requires
        c.wf(),
    ensures
        body_from(c, items, names) matches Ok((_, after, _)) ==> moved(c, after),
    decreases c.text.len() - c.pos,
{
    lemma_item_step(c, items, names);
    if let Ok(s) = item_step(c, items, names) {
        if s.more {
            lemma_body_from(s.cur, s.stack, s.names);
        }
    }
}

/// The one-letter escapes and the characters that they stand for: `n`,
/// `r`, `t` and `v` stand for line feed, carriage return, tab and vertical
/// tab; each of the characters that the notation gives a meaning to stands
/// for itself; no other letter is an escape.
pub proof fn lemma_escape_table()
    ensures
        plain_escape('n') == Some('\u{A}'),
        plain_escape('r') == Some('\u{D}'),
        plain_escape('t') == Some('\u{9}'),
        plain_escape('v') == Some('\u{B}'),
        forall|x: char|
            x == '\\' || x == '\'' || x == '{' || x == '}' || x == '[' || x == ']' || x == '('
                || x == ')' || x == '|' || x == '?' || x == '*' || x == '+' || x == '"'
                ==> #[trigger] plain_escape(x) == Some(x),
        forall|x: char|
            #[trigger] plain_escape(x) is Some ==> x == 'n' || x == 'r' || x == 't' || x == 'v'
                || x == '\\' || x == '\'' || x == '{' || x == '}' || x == '[' || x == ']' || x
                == '(' || x == ')' || x == '|' || x == '?' || x == '*' || x == '+' || x == '"',
{
}

/// A quoted literal that holds one one-letter escape, `'\X'`, is read as
/// the literal of the one character that `X` stands for, and the cursor
/// moves past the closing quote.
pub proof fn lemma_escaped_literal(
    c: Cursor,
    stack: Seq<PatternModel>,
    names: Seq<Seq<char>>,
    v: char,
)
    requires
        c.wf(),
        ({
            let quote = c.skip_while(CharSet::Whitespace);
            let slash = quote.next();
            let letter = slash.next();
            let close = letter.next();
            &&& !quote.done() && quote.ch() == '\''
            &&& !slash.done() && slash.ch() == '\\'
            &&& !letter.done() && plain_escape(letter.ch()) == Some(v)
            &&& !close.done() && close.ch() == '\''
        }),
    ensures
        item_step(c, stack, names) == Ok::<Step, ErrorModel>(
            Step {
                more: true,
                cur: c.skip_while(CharSet::Whitespace).next().next().next().next(),
                stack: stack.push(PatternModel::Literal(seq![v])),
                names,
            },
        ),
{
    let quote = c.skip_while(CharSet::Whitespace);
    let slash = quote.next();
    let letter = slash.next();
    let close = letter.next();
    c.lemma_skip_while(CharSet::Whitespace);
    quote.lemma_next();
    slash.lemma_next();
    letter.lemma_next();
    close.lemma_next();
    assert(escape_at(letter, slash.at, slash.pos) == Ok::<(char, Cursor), ErrorModel>(
        (v, close),
    ));
    let one = Seq::<char>::empty().push(v);
    assert(one =~= seq![v]);
    assert(literal_from(close, quote.at, one) == Ok::<(Seq<char>, Cursor), ErrorModel>(
        (one, close.next()),
    ));
    assert(literal_from(slash, quote.at, Seq::empty()) == literal_from(close, quote.at, one));
}

/// Every one-letter escape stands for its designated character, and
/// `\xHH` for the character with the code that its two digits write:
/// behind the backslash, the escape is read as that character and the
/// cursor moves past it.
pub proof fn lemma_escape_values(c: Cursor, begin: Offset, bs: int)
    requires
        c.wf(),
        !c.done(),
    ensures
        plain_escape(c.ch()) matches Some(v) ==> escape_at(c, begin, bs) == Ok::<
            (char, Cursor),
            ErrorModel,
        >((v, c.next())),
        c.ch() == 'x' && !c.next().done() && !c.next().next().done() ==> (match (
            hex_digit(c.next().ch()),
            hex_digit(c.next().next().ch()),
        ) {
            (Some(high), Some(low)) => escape_at(c, begin, bs) == Ok::<(char, Cursor), ErrorModel>(
                (((high * 16 + low) as u8) as char, c.next().next().next()),
            ),
            _ => escape_at(c, begin, bs) is Err,
        }),
{
}

/// `|` behind an alternation adds its right-hand side to that alternation:
/// the alternatives stay in one list, in the order in which they were
/// written.
pub proof fn lemma_alternation_flattens(
    c: Cursor,
    stack: Seq<PatternModel>,
    names: Seq<Seq<char>>,
    alts: Seq<PatternModel>,
)
    requires
        c.wf(),
        !c.skip_while(CharSet::Whitespace).done(),
        c.skip_while(CharSet::Whitespace).ch() == '|',
        stack.len() > 0,
        stack.last() == PatternModel::Or(alts),
    ensures
        item_step(c, stack, names) matches Ok(s) ==> {
            &&& s.stack.len() == stack.len()
            &&& s.stack.drop_last() == stack.drop_last()
            &&& s.stack.last() matches PatternModel::Or(w)
            &&& w.len() == alts.len() + 1
            &&& w.drop_last() == alts
        },
{
    c.lemma_skip_while(CharSet::Whitespace);
    let c0 = c.skip_while(CharSet::Whitespace);
    c0.lemma_next();
    if let Ok(s) = item_step(c, stack, names) {
        let inner = item_step(c0.next(), Seq::empty(), names)->Ok_0;
        let w = alts.push(inner.stack.last());
        assert(w.drop_last() =~= alts);
        assert(s.stack.drop_last() =~= stack.drop_last());
    }
}

/// A step keeps the items well-formed: every quantifier that the parser
/// builds has its bounds in order.
pub proof fn lemma_item_step_wf(c: Cursor, stack: Seq<PatternModel>, names: Seq<Seq<char>>)
    requires
        c.wf(),
        all_wf(stack),
    ensures
        item_step(c, stack, names) matches Ok(s) ==> all_wf(s.stack),
    decreases c.text.len() - c.pos, 0nat,
{
    c.lemma_skip_while(CharSet::Whitespace);
    let c0 = c.skip_while(CharSet::Whitespace);
    if !c0.done() {
        c0.lemma_next();
        let i = c0.at;
        let ch = c0.ch();
        let c1 = c0.next();
        if ch == '(' {
            lemma_group_from_wf(c1, i, Seq::empty(), names);
        } else if ch == '|' {
            lemma_item_step_wf(c1, Seq::empty(), names);
            lemma_item_step(c1, Seq::empty(), names);
            if stack.len() > 0 {
                assert(stack.last().wf());
            }
        } else if ch == '{' {
            lemma_quantifier_at(c1, i);
            if stack.len() > 0 {
                assert(stack.last().wf());
            }
        } else if ch == '?' || ch == '*' || ch == '+' {
            if stack.len() > 0 {
                assert(stack.last().wf());
            }
        }
    }
}

/// The items of a group that is accepted are well-formed.
pub proof fn lemma_group_from_wf(
    c: Cursor,
    begin: Offset,
    items: Seq<PatternModel>,
    names: Seq<Seq<char>>,
)
    requires
        c.wf(),
        all_wf(items),
    ensures
        group_from(c, begin, items, names) matches Ok((found, _, _)) ==> all_wf(found),
    decreases c.text.len() - c.pos, 1nat,
{
    c.lemma_skip_while(CharSet::Whitespace);
    let c0 = c.skip_while(CharSet::Whitespace);
    if !c0.done() && c0.ch() != ')' {
        lemma_item_step_wf(c0, items, names);
        if let Ok(s) = item_step(c0, items, names) {
            if s.more && moved(c0, s.cur) {
                lemma_group_from_wf(s.cur, begin, s.stack, s.names);
            }
        }
    }
}

/// A rule body that is accepted is well-formed.
pub proof fn lemma_body_from_wf(c: Cursor, items: Seq<PatternModel>, names: Seq<Seq<char>>)
    requires
        c.wf(),
        all_wf(items),
    ensures
        body_from(c, items, names) matches Ok((found, _, _)) ==> PatternModel::Group(found).wf(),
    decreases c.text.len() - c.pos,
{
    lemma_item_step_wf(c, items, names);
    if let Ok(s) = item_step(c, items, names) {
        if s.more && moved(c, s.cur) {
            lemma_body_from_wf(s.cur, s.stack, s.names);
        }
    }
}

/// The slice of `text` up to and with the character `ch`, with which
/// `here` begins. `text` begins at index `bs` and `here` at index `end` of
/// the text of `c`.
fn through<'a>(
    text: &'a str,
    here: &'a str,
    ch: char,
    Ghost(c): Ghost<Cursor>,
    Ghost(bs): Ghost<int>,
    Ghost(end): Ghost<int>,
) -> (r: &'a str)
    requires
        0 <= bs <= end < c.text.len(),
        text@ == c.text.skip(bs),
        here@ == c.text.skip(end),
        ch == c.text[end],
    ensures
        r@ == c.text.subrange(bs, end + 1),
{
    let total = byte_len(text);
    let left = byte_len(here);
    let width = len_utf8(ch);
    proof {
        let d = end - bs;
        assert(text@.skip(d) =~= here@);
        crate::text::lemma_utf8_split(text@, d);
        crate::text::lemma_utf8_take_add(text@, d, 1);
        crate::text::lemma_utf8_take_first(here@);
        assert(text@.take(d + 1) =~= c.text.subrange(bs, end + 1));
    }
    take_chars(text, total - left + width, Ghost(end + 1 - bs))
}

/// The character that a one-letter escape stands for.
pub(crate) fn plain(ch: char) -> (r: Option<char>)
    ensures
        r == plain_escape(ch),
{
    if ch == 'n' {
        Some('\n')
    } else if ch == 'r' {
        Some('\r')
    } else if ch == 't' {
        Some('\t')
    } else if ch == 'v' {
        Some('\x0B')
    } else if ch == '\\' || ch == '\'' || ch == '{' || ch == '}' || ch == '[' || ch == ']' || ch
        == '(' || ch == ')' || ch == '|' || ch == '?' || ch == '*' || ch == '+' || ch == '"' {
        Some(ch)
    } else {
        None
    }
}

/// Reads an escape sequence whose backslash, at `begin`, has been read.
/// `text` is the source from that backslash on.
fn escape<'a, C: Chars<'a> + ?Sized>(
    from: &mut C,
    begin: Offset,
    text: &'a str,
    Ghost(bs): Ghost<int>,
) -> (r: Result<char, Error<'a>>)
    requires
        old(from).cursor().wf(),
        0 <= bs < old(from).cursor().pos,
        text@ == old(from).cursor().text.skip(bs),
    ensures
        old(from).cursor().reaches(final(from).cursor()),
        match escape_at(old(from).cursor(), begin, bs) {
            Ok((v, after)) => r == Ok::<char, Error<'a>>(v) && final(from).cursor() == after,
            Err(e) => r matches Err(x) && x@ == e,
        },
{
    let ghost c = from.cursor();
    let here = from.as_str();
    let ch = match from.next() {
        None => {
            return Err(ErrorKind::UnclosedEscape.at(begin));
        },
        Some((_, ch)) => ch,
    };
    if ch == 'x' {
        let ghost d = from.cursor();
        let here = from.as_str();
        let (high_offset, high_char) = match from.next() {
            None => {
                return Err(ErrorKind::UnclosedEscape.at(begin));
            },
            Some(pair) => pair,
        };
        let high = match nibble(high_char) {
            None => {
                let seq = through(text, here, high_char, Ghost(c), Ghost(bs), Ghost(d.pos));
                return Err(ErrorKind::InvalidEscape(seq).at(high_offset));
            },
            Some(v) => v,
        };
        let ghost e = from.cursor();
        let here = from.as_str();
        let (low_offset, low_char) = match from.next() {
            None => {
                return Err(ErrorKind::UnclosedEscape.at(begin));
            },
            Some(pair) => pair,
        };
        let low = match nibble(low_char) {
            None => {
                let seq = through(text, here, low_char, Ghost(c), Ghost(bs), Ghost(e.pos));
                return Err(ErrorKind::InvalidEscape(seq).at(low_offset));
            },
            Some(v) => v,
        };
        Ok((high * 16 + low) as char)
    } else if ch == 'u' {
        let ghost d = from.cursor();
        let here = from.as_str();
        match from.next() {
            None => {
                return Err(ErrorKind::UnclosedEscape.at(begin));
            },
            Some((_, brace)) => {
                if brace != '{' {
                    let seq = through(text, here, brace, Ghost(c), Ghost(bs), Ghost(d.pos));
                    return Err(ErrorKind::InvalidEscape(seq).at(begin));
                }
            },
        }
        let ghost e = from.cursor();
        let here = from.as_str();
        match from.peek() {
            None => {
                return Err(ErrorKind::UnclosedEscape.at(begin));
            },
            Some((_, digit)) => {
                if nibble(digit).is_none() {
                    let seq = through(text, here, digit, Ghost(c), Ghost(bs), Ghost(e.pos));
                    return Err(ErrorKind::InvalidEscape(seq).at(begin));
                }
            },
        }
        let (num_begin, digits) = match read_while(from, CharSet::HexDigit) {
            None => {
                return Err(ErrorKind::UnclosedEscape.at(begin));
            },
            Some((first, _, digits)) => (first, digits),
        };
        let value = match parse_hex(digits) {
            None => {
                return Err(ErrorKind::NumberTooBig.at(num_begin));
            },
            Some(v) => v,
        };
        let ghost f = from.cursor();
        let here = from.as_str();
        match from.next() {
            None => {
                return Err(ErrorKind::UnclosedEscape.at(num_begin));
            },
            Some((_, close)) => {
                if close != '}' {
                    let seq = through(text, here, close, Ghost(c), Ghost(bs), Ghost(f.pos));
                    return Err(ErrorKind::InvalidEscape(seq).at(num_begin));
                }
            },
        }
        match char::from_u32(value) {
            None => Err(ErrorKind::InvalidUnicode.at(num_begin)),
            Some(v) => Ok(v),
        }
    } else {
        match plain(ch) {
            Some(v) => Ok(v),
            None => {
                let seq = through(text, here, ch, Ghost(c), Ghost(bs), Ghost(c.pos));
                Err(ErrorKind::InvalidEscape(seq).at(begin))
            },
        }
    }
}

/// A construct of the pattern language that can be read from a stream of
/// characters. `T` is what the construct yields.
pub trait Parse<'a, T> {
    /// Whether reading the construct at `c`, which was opened at `begin`,
    /// with the names `names` interned, gives `r` and leaves the cursor at
    /// `after` and the names as `names_after`.
    spec fn outcome(
        c: Cursor,
        begin: Offset,
        names: Seq<Seq<char>>,
        r: Result<T, Error<'a>>,
        after: Cursor,
        names_after: Seq<Seq<char>>,
    ) -> bool;

    /// Reads the construct, whose opening character, at `begin`, has been
    /// read.
    fn parse<C: Chars<'a> + ?Sized>(from: &mut C, begin: Offset, store: &mut Store<'a>) -> (r:
        Result<T, Error<'a>>)
        requires
            old(from).cursor().wf(),
        ensures
            old(from).cursor().reaches(final(from).cursor()),
            old(store)@.is_prefix_of(final(store)@),
            Self::outcome(
                old(from).cursor(),
                begin,
                old(store)@,
                r,
                final(from).cursor(),
                final(store)@,
            ),
    ;
}

impl<'a> Parse<'a, String> for String {
    open spec fn outcome(
        c: Cursor,
        begin: Offset,
        names: Seq<Seq<char>>,
        r: Result<String, Error<'a>>,
        after: Cursor,
        names_after: Seq<Seq<char>>,
    ) -> bool {
        &&& names_after == names
        &&& match literal_from(c, begin, Seq::empty()) {
            Ok((lit, d)) => r matches Ok(s) && s@ == lit && after == d,
            Err(e) => r matches Err(x) && x@ == e,
        }
    }

    fn parse<C: Chars<'a> + ?Sized>(from: &mut C, begin: Offset, store: &mut Store<'a>) -> (r:
        Result<String, Error<'a>>) {
        let ghost c = from.cursor();
        proof {
            lemma_unchanged(store@);
        }
        let mut buffer = String::new();
        loop
            invariant
                c == old(from).cursor(),
                c.wf(),
                c.reaches(from.cursor()),
                literal_from(c, begin, Seq::empty()) == literal_from(from.cursor(), begin, buffer@),
                store@ == old(store)@,
            decreases from.cursor().text.len() - from.cursor().pos,
        {
            let ghost d = from.cursor();
            let text = from.as_str();
            proof {
                if !d.done() {
                    d.lemma_next();
                    lemma_escape_at(d.next(), d.at, d.pos);
                }
            }
            let ch = match from.next() {
                None => {
                    return Err(ErrorKind::UnclosedLiteral.at(begin));
                },
                Some((offset, ch)) => {
                    if ch == '\'' {
                        return Ok(buffer);
                    }
                    if ch == '\\' {
                        match escape(from, offset, text, Ghost(d.pos)) {
                            Ok(v) => v,
                            Err(e) => {
                                return Err(e);
                            },
                        }
                    } else {
                        ch
                    }
                },
            };
            buffer.push(ch);
        }
    }
}

/// Reads one member of a class, at which the cursor stands.
fn parse_item<'a, C: Chars<'a> + ?Sized>(from: &mut C) -> (r: Result<ClassItem, Error<'a>>)
    requires
        old(from).cursor().wf(),
        !old(from).cursor().done(),
    ensures
        old(from).cursor().reaches(final(from).cursor()),
        match class_item(old(from).cursor()) {
            Ok((item, after)) => r == Ok::<ClassItem, Error<'a>>(item) && final(from).cursor()
                == after,
            Err(e) => r matches Err(x) && x@ == e,
        },
{
    let ghost c = from.cursor();
    let text = from.as_str();
    proof {
        c.lemma_next();
    }
    let (begin, ch) = match from.next() {
        None => {
            return Err(ErrorKind::UnclosedClass.at(from.offset()));
        },
        Some((offset, ch)) => {
            if ch == '\\' {
                match escape(from, offset, text, Ghost(c.pos)) {
                    Ok(v) => (offset, v),
                    Err(e) => {
                        return Err(e);
                    },
                }
            } else {
                (offset, ch)
            }
        },
    };
    let dash = match from.peek() {
        Some((_, next)) => next == '-',
        None => false,
    };
    if dash {
        from.next();
        let ghost e = from.cursor();
        let text = from.as_str();
        proof {
            if !e.done() {
                e.lemma_next();
            }
        }
        let end = match from.next() {
            None => {
                return Err(ErrorKind::UnclosedClassItem.at(begin));
            },
            Some((offset, end)) => {
                if end == ']' {
                    return Err(ErrorKind::UnclosedClassItem.at(begin));
                }
                if end == '\\' {
                    match escape(from, offset, text, Ghost(e.pos)) {
                        Ok(v) => v,
                        Err(err) => {
                            return Err(err);
                        },
                    }
                } else {
                    end
                }
            },
        };
        Ok(ClassItem::Range(ch, end))
    } else {
        Ok(ClassItem::Char(ch))
    }
}

impl<'a> Parse<'a, Class> for Class {
    open spec fn outcome(
        c: Cursor,
        begin: Offset,
        names: Seq<Seq<char>>,
        r: Result<Class, Error<'a>>,
        after: Cursor,
        names_after: Seq<Seq<char>>,
    ) -> bool {
        &&& names_after == names
        &&& match class_at(c, begin) {
            Ok(((deny, list), d)) => r matches Ok(class) && class.deny == deny && class.list@
                == list && after == d,
            Err(e) => r matches Err(x) && x@ == e,
        }
    }

    fn parse<C: Chars<'a> + ?Sized>(from: &mut C, begin: Offset, store: &mut Store<'a>) -> (r:
        Result<Class, Error<'a>>) {
        let ghost c = from.cursor();
        proof {
            lemma_unchanged(store@);
        }
        let deny = match from.peek() {
            Some((_, ch)) => ch == '^',
            None => false,
        };
        if deny {
            from.next();
        }
        let ghost start = from.cursor();
        let mut list: Vec<ClassItem> = Vec::new();
        loop
            invariant
                c == old(from).cursor(),
                start == (if deny {
                    c.next()
                } else {
                    c
                }),
                deny == (!c.done() && c.ch() == '^'),
                start.wf(),
                c.wf(),
                c.reaches(from.cursor()),
                start.reaches(from.cursor()),
                class_items(start, begin, Seq::empty()) == class_items(
                    from.cursor(),
                    begin,
                    list@,
                ),
                store@ == old(store)@,
            decreases from.cursor().text.len() - from.cursor().pos,
        {
            let ghost d = from.cursor();
            proof {
                if !d.done() {
                    lemma_class_item(d);
                }
            }
            match from.peek() {
                None => {
                    return Err(ErrorKind::UnclosedClass.at(begin));
                },
                Some((offset, ch)) => {
                    if ch == ']' {
                        from.next();
                        return Ok(Class::new(deny, list));
                    }
                    if ch == '-' && after_range(&list) && peek_second(from) != Some(']') {
                        return Err(ErrorKind::MissingPrefix.at(offset));
                    }
                    match parse_item(from) {
                        Ok(item) => {
                            list.push(item);
                        },
                        Err(e) => {
                            return Err(e);
                        },
                    }
                },
            }
        }
    }
}

/// Whether the member read last is a range.
fn after_range(list: &Vec<ClassItem>) -> (r: bool)
    ensures
        r == (list@.len() > 0 && list@.last() is Range),
{
    let n = list.len();
    if n == 0 {
        false
    } else {
        match list[n - 1] {
            ClassItem::Range(_, _) => true,
            ClassItem::Char(_) => false,
        }
    }
}

/// Reads the upper bound of a `{..}` quantifier and its closing brace.
fn parse_upper<'a, C: Chars<'a> + ?Sized>(
    from: &mut C,
    begin: Offset,
    min: usize,
    required: bool,
) -> (r: Result<(usize, usize), Error<'a>>)
    requires
        old(from).cursor().wf(),
    ensures
        old(from).cursor().reaches(final(from).cursor()),
        match upper_bound(old(from).cursor(), begin, min, required) {
            Ok((range, after)) => r == Ok::<(usize, usize), Error<'a>>(range)
                && final(from).cursor() == after,
            Err(e) => r matches Err(x) && x@ == e,
        },
{
    let ghost c = from.cursor();
    let max = match from.peek() {
        None => {
            return Err(ErrorKind::UnclosedQuantifier.at(begin));
        },
        Some(_) => {
            match read_while(from, CharSet::Digit) {
                Some((first, _, digits)) => {
                    match parse_decimal(digits) {
                        Some(v) => Some(v),
                        None => {
                            return Err(ErrorKind::NumberTooBig.at(first));
                        },
                    }
                },
                None => {
                    if required {
                        return Err(ErrorKind::MalformedQuantifier.at(begin));
                    }
                    None
                },
            }
        },
    };
    match from.next() {
        None => Err(ErrorKind::UnclosedQuantifier.at(begin)),
        Some((offset, ch)) => {
            if ch != '}' {
                Err(ErrorKind::MalformedQuantifier.at(offset))
            } else {
                match max {
                    None => Ok((min, usize::MAX)),
                    Some(max) => {
                        if min > max {
                            Err(ErrorKind::MalformedQuantifier.at(begin))
                        } else {
                            Ok((min, max))
                        }
                    },
                }
            }
        },
    }
}

impl<'a> Parse<'a, (usize, usize)> for Quantifier {
    open spec fn outcome(
        c: Cursor,
        begin: Offset,
        names: Seq<Seq<char>>,
        r: Result<(usize, usize), Error<'a>>,
        after: Cursor,
        names_after: Seq<Seq<char>>,
    ) -> bool {
        &&& names_after == names
        &&& match quantifier_at(c, begin) {
            Ok((range, d)) => r == Ok::<(usize, usize), Error<'a>>(range) && after == d,
            Err(e) => r matches Err(x) && x@ == e,
        }
    }

    fn parse<C: Chars<'a> + ?Sized>(from: &mut C, begin: Offset, store: &mut Store<'a>) -> (r:
        Result<(usize, usize), Error<'a>>) {
        let ghost c = from.cursor();
        proof {
            lemma_unchanged(store@);
        }
        match from.peek() {
            None => {
                return Err(ErrorKind::UnclosedQuantifier.at(begin));
            },
            Some((_, ch)) => {
                if ch == ',' {
                    from.next();
                    return parse_upper(from, begin, 0, true);
                }
            },
        }
        let min = match read_while(from, CharSet::Digit) {
            None => {
                return Err(ErrorKind::MalformedQuantifier.at(begin));
            },
            Some((first, _, digits)) => {
                match parse_decimal(digits) {
                    Some(v) => v,
                    None => {
                        return Err(ErrorKind::NumberTooBig.at(first));
                    },
                }
            },
        };
        match from.next() {
            None => Err(ErrorKind::UnclosedQuantifier.at(begin)),
            Some((offset, ch)) => {
                if ch == ',' {
                    parse_upper(from, begin, min, false)
                } else if ch == '}' {
                    Ok((min, min))
                } else {
                    Err(ErrorKind::MalformedQuantifier.at(offset))
                }
            },
        }
    }
}

/// Reads a reference whose first character, `first`, has been read.
/// `text` is the source from that character on.
fn parse_reference<'a, C: Chars<'a> + ?Sized>(
    from: &mut C,
    first: (Offset, char),
    text: &'a str,
    store: &mut Store<'a>,
    Ghost(c): Ghost<Cursor>,
) -> (r: Result<Pattern, Error<'a>>)
    requires
        c.wf(),
        !c.done(),
        text@ == c.rest(),
        first == (c.at, c.ch()),
        old(from).cursor() == c.next(),
    ensures
        c.reaches(final(from).cursor()),
        old(store)@.is_prefix_of(final(store)@),
        match reference_at(c, old(store)@) {
            Ok((pat, after, names)) => r matches Ok(p) && p@ == pat && final(from).cursor()
                == after && final(store)@ == names,
            Err(e) => r matches Err(x) && x@ == e,
        },
{
    let set = CharSet::Word;
    let (_, ident) = read_run(from, &set, text, first, Ghost(c));
    let reference = store.add(ident);
    let ghost named = store@;
    let at = match from.peek() {
        Some((offset, ch)) => if ch == '@' {
            Some(offset)
        } else {
            None
        },
        None => None,
    };
    match at {
        None => Ok(Pattern::Reference(reference, None)),
        Some(offset) => {
            from.next();
            match read_while(from, CharSet::Solid) {
                None => Err(ErrorKind::EmptyName.at(offset)),
                Some((_, _, name)) => {
                    let id = store.add(name);
                    proof {
                        lemma_grows(old(store)@, named, store@);
                    }
                    Ok(Pattern::Reference(reference, Some(id)))
                },
            }
        },
    }
}

/// Takes the operand of a postfix operator that stood at `at` from
/// `stack`.
fn pop_operand<'a>(stack: &mut Vec<Pattern>, at: Offset) -> (r: Result<Pattern, Error<'a>>)
    ensures
        match r {
            Ok(p) => old(stack)@.len() > 0 && p == old(stack)@.last() && final(stack)@ == old(
                stack,
            )@.drop_last(),
            Err(e) => old(stack)@.len() == 0 && final(stack)@ == old(stack)@ && e@
                == KindModel::MissingPrefix.at(at),
        },
{
    match stack.pop() {
        Some(p) => Ok(p),
        None => Err(ErrorKind::MissingPrefix.at(at)),
    }
}

/// One step of the parser: reads the closing `;` and returns `false`, or
/// reads one item, puts it on `stack`, and returns `true`. Where it fails,
/// `stack` is as it was, but for the operand that an operator took from
/// it before what followed the operator failed; names that were interned
/// stay interned.
pub fn parse_once<'a, C: Chars<'a> + ?Sized>(
    from: &mut C,
    stack: &mut Vec<Pattern>,
    store: &mut Store<'a>,
) -> (r: Result<bool, Error<'a>>)
    requires
        old(from).cursor().wf(),
    ensures
        old(from).cursor().reaches(final(from).cursor()),
        old(store)@.is_prefix_of(final(store)@),
        r is Err ==> final(stack)@ == old(stack)@ || (old(stack)@.len() > 0 && final(stack)@
            == old(stack)@.drop_last()),
        match item_step(old(from).cursor(), views(old(stack)@), old(store)@) {
            Ok(s) => r == Ok::<bool, Error<'a>>(s.more) && final(from).cursor() == s.cur && views(
                final(stack)@,
            ) == s.stack && final(store)@ == s.names,
            Err(e) => r matches Err(x) && x@ == e,
        },
    decreases old(from).cursor().text.len() - old(from).cursor().pos, 0nat,
{
    let ghost c = from.cursor();
    let ghost before = stack@;
    let ghost names = store@;
    skip_while(from, CharSet::Whitespace);
    let ghost c0 = from.cursor();
    let text = from.as_str();
    proof {
        lemma_views(before);
        lemma_unchanged(names);
        if !c0.done() {
            c0.lemma_next();
        }
    }
    let (i, ch) = match from.next() {
        None => {
            return Err(ErrorKind::UnexpectedEOF.at(from.offset()));
        },
        Some(pair) => pair,
    };
    let ghost c1 = from.cursor();
    let pat = if ch == ';' {
        return Ok(false);
    } else if ch == '\'' {
        match <String as Parse<'a, String>>::parse(from, i, store) {
            Ok(lit) => Pattern::Literal(lit),
            Err(e) => {
                return Err(e);
            },
        }
    } else if ch == '.' {
        Pattern::Class(Class::new(true, Vec::new()))
    } else if ch == '[' {
        match <Class as Parse<'a, Class>>::parse(from, i, store) {
            Ok(class) => Pattern::Class(class),
            Err(e) => {
                return Err(e);
            },
        }
    } else if ch == '(' {
        match <Vec<Pattern> as Parse<'a, Vec<Pattern>>>::parse(from, i, store) {
            Ok(items) => Pattern::Group(items),
            Err(e) => {
                return Err(e);
            },
        }
    } else if ch == '|' {
        let top = match pop_operand(stack, i) {
            Ok(p) => p,
            Err(e) => {
                return Err(e);
            },
        };
        let ghost alts = match views(before).last() {
            PatternModel::Or(v) => v,
            other => seq![other],
        };
        let mut rhs = match top {
            Pattern::Or(rhs) => {
                assert(top@ == PatternModel::Or(views(rhs@)));
                rhs
            },
            other => {
                let mut rhs = Vec::new();
                rhs.push(other);
                proof {
                    lemma_views(Seq::<Pattern>::empty());
                    assert(rhs@ =~= Seq::<Pattern>::empty().push(other));
                    assert(views(rhs@) =~= seq![other@]);
                    assert(!(other@ is Or));
                }
                rhs
            },
        };
        assert(views(rhs@) == alts);
        let mut local: Vec<Pattern> = Vec::new();
        proof {
            lemma_views(local@);
            assert(views(local@) =~= Seq::<PatternModel>::empty());
            lemma_item_step(c1, Seq::empty(), names);
        }
        match parse_once(from, &mut local, store) {
            Ok(more) => {
                if !more {
                    return Err(ErrorKind::MissingSuffix.at(i));
                }
            },
            Err(e) => {
                return Err(e);
            },
        }
        proof {
            lemma_views(local@);
            lemma_views(rhs@);
        }
        let lhs = match local.pop() {
            Some(p) => p,
            None => {
                return Err(ErrorKind::MissingSuffix.at(i));
            },
        };
        rhs.push(lhs);
        assert(views(rhs@) == alts.push(lhs@));
        let pat = Pattern::Or(rhs);
        assert(pat@ == PatternModel::Or(alts.push(lhs@)));
        pat
    } else if ch == '?' {
        match pop_operand(stack, i) {
            Ok(p) => Pattern::Quantifier(Quantifier::new(p, 0, 1)),
            Err(e) => {
                return Err(e);
            },
        }
    } else if ch == '*' {
        match pop_operand(stack, i) {
            Ok(p) => Pattern::Quantifier(Quantifier::new(p, 0, usize::MAX)),
            Err(e) => {
                return Err(e);
            },
        }
    } else if ch == '+' {
        match pop_operand(stack, i) {
            Ok(p) => Pattern::Quantifier(Quantifier::new(p, 1, usize::MAX)),
            Err(e) => {
                return Err(e);
            },
        }
    } else if ch == '{' {
        let p = match pop_operand(stack, i) {
            Ok(p) => p,
            Err(e) => {
                return Err(e);
            },
        };
        proof {
            lemma_quantifier_at(c1, i);
        }
        match <Quantifier as Parse<'a, (usize, usize)>>::parse(from, i, store) {
            Ok((min, max)) => Pattern::Quantifier(Quantifier::new(p, min, max)),
            Err(e) => {
                return Err(e);
            },
        }
    } else if ch == ')' || ch == ']' || ch == '}' {
        return Err(ErrorKind::CloserMismatched.at(i));
    } else {
        match parse_reference(from, (i, ch), text, store, Ghost(c0)) {
            Ok(p) => p,
            Err(e) => {
                return Err(e);
            },
        }
    };
    proof {
        lemma_views(stack@);
    }
    stack.push(pat);
    Ok(true)
}

impl<'a> Parse<'a, Vec<Pattern>> for Vec<Pattern> {
    open spec fn outcome(
        c: Cursor,
        begin: Offset,
        names: Seq<Seq<char>>,
        r: Result<Vec<Pattern>, Error<'a>>,
        after: Cursor,
        names_after: Seq<Seq<char>>,
    ) -> bool {
        match group_from(c, begin, Seq::empty(), names) {
            Ok((items, d, named)) => r matches Ok(v) && views(v@) == items && after == d
                && names_after == named,
            Err(e) => r matches Err(x) && x@ == e,
        }
    }

    fn parse<C: Chars<'a> + ?Sized>(from: &mut C, begin: Offset, store: &mut Store<'a>) -> (r:
        Result<Vec<Pattern>, Error<'a>>)
        decreases old(from).cursor().text.len() - old(from).cursor().pos, 1nat,
    {
        let ghost c = from.cursor();
        let mut items: Vec<Pattern> = Vec::new();
        proof {
            lemma_unchanged(store@);
            lemma_views(items@);
            assert(views(items@) =~= Seq::<PatternModel>::empty());
        }
        loop
            invariant
                c == old(from).cursor(),
                c.wf(),
                c.reaches(from.cursor()),
                group_from(c, begin, Seq::empty(), old(store)@) == group_from(
                    from.cursor(),
                    begin,
                    views(items@),
                    store@,
                ),
                old(store)@.is_prefix_of(store@),
            decreases from.cursor().text.len() - from.cursor().pos,
        {
            let ghost d = from.cursor();
            let ghost held = store@;
            skip_while(from, CharSet::Whitespace);
            let ghost c0 = from.cursor();
            proof {
                d.lemma_skip_while(CharSet::Whitespace);
                lemma_item_step(c0, views(items@), store@);
                if !c0.done() {
                    c0.lemma_next();
                }
            }
            match from.peek() {
                None => {
                    return Err(ErrorKind::UnclosedGroup.at(begin));
                },
                Some((_, ch)) => {
                    if ch == ')' {
                        from.next();
                        return Ok(items);
                    }
                },
            }
            let step = parse_once(from, &mut items, store);
            proof {
                lemma_grows(old(store)@, held, store@);
            }
            match step {
                Ok(more) => {
                    if !more {
                        return Err(ErrorKind::UnclosedGroup.at(begin));
                    }
                },
                Err(e) => {
                    return Err(e);
                },
            }
        }
    }
}

/// Parses the body of a rule, up to and with its closing `;`: the items
/// of the body as one group. Names of referenced rules and of captures
/// are interned in `store`.
pub fn parse<'a, C: Chars<'a> + ?Sized>(from: &mut C, store: &mut Store<'a>) -> (r: Result<
    Pattern,
    Error<'a>,
>)
    requires
        old(from).cursor().wf(),
    ensures
        old(from).cursor().reaches(final(from).cursor()),
        match body_from(old(from).cursor(), Seq::empty(), old(store)@) {
            Ok((items, after, names)) => r matches Ok(p) && p@ == PatternModel::Group(items)
                && final(from).cursor() == after && final(store)@ == names,
            Err(e) => r matches Err(x) && x@ == e,
        },
        r matches Ok(p) ==> p@.wf(),
        old(store)@.is_prefix_of(final(store)@),
{
    let ghost c = from.cursor();
    proof {
        lemma_body_from_wf(c, Seq::empty(), store@);
        lemma_unchanged(store@);
    }
    let mut list: Vec<Pattern> = Vec::new();
    proof {
        lemma_views(list@);
        assert(views(list@) =~= Seq::<PatternModel>::empty());
    }
    loop
        invariant
            c == old(from).cursor(),
            c.wf(),
            c.reaches(from.cursor()),
            body_from(c, Seq::empty(), old(store)@) == body_from(
                from.cursor(),
                views(list@),
                store@,
            ),
            body_from(c, Seq::empty(), old(store)@) matches Ok((found, _, _))
                ==> PatternModel::Group(found).wf(),
            old(store)@.is_prefix_of(store@),
        decreases from.cursor().text.len() - from.cursor().pos,
    {
        let ghost held = store@;
        proof {
            lemma_item_step(from.cursor(), views(list@), store@);
        }
        let step = parse_once(from, &mut list, store);
        proof {
            lemma_grows(old(store)@, held, store@);
        }
        match step {
            Ok(more) => {
                if !more {
                    return Ok(Pattern::Group(list));
                }
            },
            Err(e) => {
                return Err(e);
            },
        }
    }
}

} // verus!
