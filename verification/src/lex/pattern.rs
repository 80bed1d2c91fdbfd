//! The parser for a one-line pattern in the compact notation.
//!
//! Here a character stands for itself unless it is one of the operators,
//! blanks count, and there are neither quoted literals nor references.
//! Errors are reported at byte offsets into the pattern.
use crate::digits::{
    dec_value, hex_digit, hex_value, is_ascii_digit, is_digit, lemma_hex_value_monotonic, nibble,
    parse_decimal,
};
use crate::error::{InlineError, InlineModel, KindModel};
use crate::lex::iter::{byte_offset, Iter};
use crate::pattern::parse::{plain, plain_escape, replace_top, CharSet};
use crate::pattern::pattern::{
    all_wf, lemma_views, views, Class, ClassItem, Pattern, PatternModel, Quantifier,
};
use crate::text::{
    lemma_utf8_take_add, lemma_utf8_take_first, lemma_utf8_take_monotonic,
    take_chars, utf8_len,
};
use vstd::prelude::*;
use vstd::utf8::is_scalar;

verus! {

/// An error of the kind `kind` at the character with index `pos`.
pub open spec fn fail(kind: KindModel, text: Seq<char>, pos: int) -> InlineModel {
    InlineModel { offset: byte_offset(text, pos), kind }
}

/// The index behind the run of characters of `set` that begins at `pos`.
pub open spec fn run_end(text: Seq<char>, pos: int, set: CharSet) -> int
    decreases text.len() - pos,
{
    if 0 <= pos < text.len() && set.has(text[pos]) {
        run_end(text, pos + 1, set)
    } else {
        pos
    }
}

/// A run ends inside the text, behind characters of the set only.
pub proof fn lemma_run_end(text: Seq<char>, pos: int, set: CharSet)
    requires
        0 <= pos <= text.len(),
    ensures
        pos <= run_end(text, pos, set) <= text.len(),
        run_end(text, pos, set) < text.len() ==> !set.has(text[run_end(text, pos, set)]),
        pos < text.len() && set.has(text[pos]) ==> pos < run_end(text, pos, set),
    decreases text.len() - pos,
{
    if pos < text.len() && set.has(text[pos]) {
        lemma_run_end(text, pos + 1, set);
    }
}

/// The largest value that a `\u{..}` escape is read up to.
pub open spec fn unicode_guard() -> nat {
    0x0FFF_FFFF
}

/// An escape sequence whose backslash has the index `p`: the character it
/// stands for and the index behind it.
pub open spec fn inline_escape(text: Seq<char>, p: int) -> Result<(char, int), InlineModel> {
    let q = p + 1;
    if q >= text.len() {
        Err(fail(KindModel::UnclosedEscape, text, q))
    } else if text[q] == 'x' {
        if q + 1 >= text.len() {
            Err(fail(KindModel::UnclosedEscape, text, q + 1))
        } else {
            match hex_digit(text[q + 1]) {
                None => Err(
                    fail(KindModel::InvalidEscape(text.subrange(p, q + 2)), text, q + 2),
                ),
                Some(high) => if q + 2 >= text.len() {
                    Err(fail(KindModel::UnclosedEscape, text, q + 2))
                } else {
                    match hex_digit(text[q + 2]) {
                        None => Err(
                            fail(KindModel::InvalidEscape(text.subrange(p, q + 3)), text, q + 3),
                        ),
                        Some(low) => Ok((((high * 16 + low) as u8) as char, q + 3)),
                    }
                },
            }
        }
    } else if text[q] == 'u' {
        let o = q + 1;
        if o >= text.len() {
            Err(fail(KindModel::UnclosedEscape, text, o))
        } else if text[o] != '{' {
            Err(fail(KindModel::InvalidEscape(text.subrange(p, o + 1)), text, o))
        } else {
            let d = o + 1;
            let e = run_end(text, d, CharSet::HexDigit);
            let value = hex_value(text.subrange(d, e));
            if value >= unicode_guard() {
                Err(fail(KindModel::NumberTooBig, text, o))
            } else if e >= text.len() {
                Err(fail(KindModel::UnclosedEscape, text, o))
            } else if text[e] != '}' {
                Err(fail(KindModel::InvalidEscape(text.subrange(p, e + 1)), text, o))
            } else if e == d || !is_scalar(value as u32) {
                Err(fail(KindModel::InvalidEscape(text.subrange(p, e)), text, o))
            } else {
                Ok(((value as u32) as char, e + 1))
            }
        }
    } else {
        match plain_escape(text[q]) {
            Some(v) => Ok((v, q + 1)),
            None => Err(fail(KindModel::InvalidEscape(text.subrange(p, q + 1)), text, q + 1)),
        }
    }
}

/// An escape sequence that is accepted ends inside the text, behind its
/// backslash.
pub proof fn lemma_inline_escape(text: Seq<char>, p: int)
    requires
        0 <= p < text.len(),
    ensures
        inline_escape(text, p) matches Ok((_, after)) ==> p < after <= text.len(),
{
    if p + 3 <= text.len() {
        lemma_run_end(text, p + 3, CharSet::HexDigit);
    }
}

/// One character of a class, written as itself or as an escape sequence,
/// at index `pos`: the character and the index behind it.
pub open spec fn class_char(text: Seq<char>, pos: int) -> Result<(char, int), InlineModel> {
    if text[pos] == '\\' {
        inline_escape(text, pos)
    } else {
        Ok((text[pos], pos + 1))
    }
}

/// A one-letter escape is read as the character that its letter stands
/// for, and takes the backslash and that letter; `\xHH` is read as the
/// character with the code that its two digits write.
pub proof fn lemma_inline_escape_values(text: Seq<char>, p: int)
    requires
        0 <= p,
        p + 1 < text.len(),
    ensures
        plain_escape(text[p + 1]) matches Some(v) ==> inline_escape(text, p) == Ok::<
            (char, int),
            InlineModel,
        >((v, p + 2)),
        text[p + 1] == 'x' && p + 3 < text.len() ==> (match (
            hex_digit(text[p + 2]),
            hex_digit(text[p + 3]),
        ) {
            (Some(high), Some(low)) => inline_escape(text, p) == Ok::<(char, int), InlineModel>(
                (((high * 16 + low) as u8) as char, p + 4),
            ),
            _ => inline_escape(text, p) is Err,
        }),
{
}

/// The members `list` with the character `ch`, read at index `pos`, added:
/// as the upper end of the pending range, or as a member of its own. The
/// second component is the index at which the new last member began.
pub open spec fn class_add(
    list: Seq<ClassItem>,
    pending: Option<(char, int)>,
    ch: char,
    pos: int,
) -> (Seq<ClassItem>, int) {
    match pending {
        Some((min, at)) => (list.push(ClassItem::Range(min, ch)), at),
        None => (list.push(ClassItem::Char(ch)), pos),
    }
}

/// The members of a class from index `pos` to the closing `]`. `open` is
/// the index of the opening `[`, `list` the members read so far, `last`
/// the index at which the last of them began, and `pending` the lower end
/// of a range whose `-` has been read, with the index at which it began.
pub open spec fn inline_class_items(
    text: Seq<char>,
    pos: int,
    open: int,
    list: Seq<ClassItem>,
    last: int,
    pending: Option<(char, int)>,
) -> Result<(Seq<ClassItem>, int), InlineModel>
    decreases text.len() - pos,
{
    if pos < 0 || pos >= text.len() {
        Err(fail(KindModel::UnclosedClass, text, open))
    } else if text[pos] == ']' {
        match pending {
            Some((_, at)) => Err(fail(KindModel::MissingSuffix, text, at)),
            None => Ok((list, pos + 1)),
        }
    } else if text[pos] == '-' {
        if let Some((_, at)) = pending {
            Err(fail(KindModel::MissingSuffix, text, at))
        } else if list.len() == 0 || list.last() is Range {
            Err(fail(KindModel::MissingPrefix, text, pos))
        } else {
            inline_class_items(
                text,
                pos + 1,
                open,
                list.drop_last(),
                last,
                Some((list.last()->Char_0, last)),
            )
        }
    } else {
        match class_char(text, pos) {
            Err(e) => Err(e),
            Ok((ch, after)) => if pos < after && after <= text.len() {
                let added = class_add(list, pending, ch, pos);
                inline_class_items(text, after, open, added.0, added.1, None)
            } else {
                Err(fail(KindModel::UnclosedClass, text, open))
            },
        }
    }
}

/// A character class whose `[` has the index `pos - 1`. A `-` that comes
/// first stands for itself.
pub open spec fn inline_class(text: Seq<char>, pos: int) -> Result<
    ((bool, Seq<ClassItem>), int),
    InlineModel,
> {
    if pos >= text.len() {
        Err(fail(KindModel::UnclosedClass, text, pos))
    } else {
        let deny = text[pos] == '^';
        let first = if deny {
            pos + 1
        } else {
            pos
        };
        if first >= text.len() {
            Err(fail(KindModel::UnclosedClass, text, first))
        } else if text[first] == ']' {
            Ok(((deny, Seq::empty()), first + 1))
        } else {
            let rest = if text[first] == '-' {
                inline_class_items(
                    text,
                    first + 1,
                    pos - 1,
                    seq![ClassItem::Char('-')],
                    first,
                    None,
                )
            } else {
                inline_class_items(text, first, pos - 1, Seq::empty(), first, None)
            };
            match rest {
                Err(e) => Err(e),
                Ok((list, after)) => Ok(((deny, list), after)),
            }
        }
    }
}

/// Class members that are accepted end inside the text, further on.
pub proof fn lemma_inline_class_items(
    text: Seq<char>,
    pos: int,
    open: int,
    list: Seq<ClassItem>,
    last: int,
    pending: Option<(char, int)>,
)
    requires
        0 <= pos,
    ensures
        inline_class_items(text, pos, open, list, last, pending) matches Ok((_, after)) ==> pos
            < after <= text.len(),
    decreases text.len() - pos,
{
    if pos >= text.len() || text[pos] == ']' {
    } else if text[pos] == '-' {
        if pending is None && list.len() > 0 && list.last() is Char {
            lemma_inline_class_items(
                text,
                pos + 1,
                open,
                list.drop_last(),
                last,
                Some((list.last()->Char_0, last)),
            );
        }
    } else {
        if let Ok((ch, after)) = class_char(text, pos) {
            if pos < after && after <= text.len() {
                let added = class_add(list, pending, ch, pos);
                lemma_inline_class_items(text, after, open, added.0, added.1, None);
            }
        }
    }
}

/// The upper bound of a `{..}` quantifier from index `pos`, behind the
/// comma. `open` is the index of the `{` and `min` the lower bound, if
/// one was written.
pub open spec fn inline_upper(text: Seq<char>, pos: int, open: int, min: Option<usize>) -> Result<
    ((usize, usize), int),
    InlineModel,
> {
    if pos >= text.len() {
        Err(fail(KindModel::UnclosedQuantifier, text, open))
    } else if text[pos] == '}' {
        match min {
            Some(m) => Ok(((m, usize::MAX), pos + 1)),
            None => Err(fail(KindModel::MalformedQuantifier, text, open)),
        }
    } else if !is_digit(text[pos]) {
        Err(fail(KindModel::UnclosedQuantifier, text, open))
    } else {
        let e = run_end(text, pos, CharSet::Digit);
        let max = dec_value(text.subrange(pos, e));
        if e >= text.len() || text[e] != '}' {
            Err(fail(KindModel::UnclosedQuantifier, text, open))
        } else if max > usize::MAX {
            Err(fail(KindModel::NumberTooBig, text, pos))
        } else {
            match min {
                Some(m) => if m > max {
                    Err(fail(KindModel::MalformedQuantifier, text, open))
                } else {
                    Ok(((m, max as usize), e + 1))
                },
                None => Ok(((0, max as usize), e + 1)),
            }
        }
    }
}

/// The bounds of a `{..}` quantifier whose `{` has the index `pos - 1`.
pub open spec fn inline_quantifier(text: Seq<char>, pos: int) -> Result<
    ((usize, usize), int),
    InlineModel,
> {
    let open = pos - 1;
    if pos >= text.len() {
        Err(fail(KindModel::UnclosedQuantifier, text, open))
    } else if is_digit(text[pos]) {
        let e = run_end(text, pos, CharSet::Digit);
        let min = dec_value(text.subrange(pos, e));
        if e >= text.len() {
            Err(fail(KindModel::UnclosedQuantifier, text, open))
        } else if text[e] == ',' {
            if min > usize::MAX {
                Err(fail(KindModel::NumberTooBig, text, pos + 1))
            } else {
                inline_upper(text, e + 1, open, Some(min as usize))
            }
        } else if text[e] == '}' {
            if min > usize::MAX {
                Err(fail(KindModel::NumberTooBig, text, pos + 1))
            } else {
                Ok(((min as usize, min as usize), e + 1))
            }
        } else {
            Err(fail(KindModel::UnclosedQuantifier, text, open))
        }
    } else if text[pos] == ',' {
        inline_upper(text, pos + 1, open, None)
    } else {
        Err(fail(KindModel::UnclosedQuantifier, text, open))
    }
}

/// Bounds that are accepted are in order and end inside the text.
pub proof fn lemma_inline_quantifier(text: Seq<char>, pos: int)
    requires
        0 <= pos,
    ensures
        inline_quantifier(text, pos) matches Ok(((min, max), after)) ==> min <= max && pos < after
            <= text.len(),
{
    if pos < text.len() {
        lemma_run_end(text, pos, CharSet::Digit);
        let e = run_end(text, pos, CharSet::Digit);
        if e + 1 <= text.len() {
            lemma_run_end(text, e + 1, CharSet::Digit);
        }
        if pos + 1 <= text.len() {
            lemma_run_end(text, pos + 1, CharSet::Digit);
        }
    }
}

/// The outcome of reading one item of a one-line pattern: whether an
/// item was read, the index behind it, and the items collected.
pub struct InlineStep {
    pub more: bool,
    pub pos: int,
    pub stack: Seq<PatternModel>,
}

/// The pattern that a single character stands for.
pub open spec fn char_model(ch: char) -> PatternModel {
    PatternModel::Literal(seq![ch])
}

/// The outcome of a step that read an item `pat`, up to index `pos`.
pub open spec fn pushed(stack: Seq<PatternModel>, pat: PatternModel, pos: int) -> Result<
    InlineStep,
    InlineModel,
> {
    Ok(InlineStep { more: true, pos, stack: stack.push(pat) })
}

/// The outcome of a step that applied a quantifier to the last item.
pub open spec fn quantified(stack: Seq<PatternModel>, min: usize, max: usize, pos: int) -> Result<
    InlineStep,
    InlineModel,
> {
    Ok(
        InlineStep {
            more: true,
            pos,
            stack: replace_top(stack, PatternModel::Quantifier(min, max, Box::new(stack.last()))),
        },
    )
}

/// One step of the parser at index `pos`: at the end of the text nothing
/// is read; else one item is read and put on `stack`. A postfix operator
/// or `|` takes the last item of `stack` as its operand.
pub open spec fn inline_step(text: Seq<char>, pos: int, stack: Seq<PatternModel>) -> Result<
    InlineStep,
    InlineModel,
>
    decreases text.len() - pos, 0nat,
{
    if pos < 0 || pos >= text.len() {
        Ok(InlineStep { more: false, pos, stack })
    } else {
        let ch = text[pos];
        let q = pos + 1;
        if ch == '[' {
            match inline_class(text, q) {
                Err(e) => Err(e),
                Ok(((deny, list), after)) => pushed(stack, PatternModel::Class(deny, list), after),
            }
        } else if ch == '(' {
            match inline_group(text, q, pos, Seq::empty()) {
                Err(e) => Err(e),
                Ok((items, after)) => pushed(stack, PatternModel::Group(items), after),
            }
        } else if ch == '\\' {
            match inline_escape(text, pos) {
                Err(e) => Err(e),
                Ok((v, after)) => pushed(stack, char_model(v), after),
            }
        } else if ch == '?' || ch == '*' || ch == '+' || ch == '{' || ch == '|' {
            if stack.len() == 0 {
                Err(fail(KindModel::MissingPrefix, text, pos))
            } else if ch == '?' {
                quantified(stack, 0, 1, q)
            } else if ch == '*' {
                quantified(stack, 0, usize::MAX, q)
            } else if ch == '+' {
                quantified(stack, 1, usize::MAX, q)
            } else if ch == '{' {
                match inline_quantifier(text, q) {
                    Err(e) => Err(e),
                    Ok(((min, max), after)) => quantified(stack, min, max, after),
                }
            } else {
                let alts = match stack.last() {
                    PatternModel::Or(v) => v,
                    other => seq![other],
                };
                match inline_step(text, q, Seq::empty()) {
                    Err(e) => Err(e),
                    Ok(s) => if !s.more || s.stack.len() == 0 {
                        Err(fail(KindModel::MissingSuffix, text, pos))
                    } else {
                        Ok(
                            InlineStep {
                                more: true,
                                pos: s.pos,
                                stack: replace_top(
                                    stack,
                                    PatternModel::Or(alts.push(s.stack.last())),
                                ),
                            },
                        )
                    },
                }
            }
        } else if ch == ')' || ch == ']' || ch == '}' {
            Err(fail(KindModel::CloserMismatched, text, pos))
        } else {
            pushed(stack, char_model(ch), q)
        }
    }
}

/// The items of a group from index `pos` to its closing `)`. `open` is
/// the index of the opening `(` and `items` what has been read so far.
pub open spec fn inline_group(text: Seq<char>, pos: int, open: int, items: Seq<PatternModel>) -> Result<
    (Seq<PatternModel>, int),
    InlineModel,
>
    decreases text.len() - pos, 1nat,
{
    if pos < 0 || pos >= text.len() {
        Err(fail(KindModel::UnclosedGroup, text, open))
    } else if text[pos] == ')' {
        Ok((items, pos + 1))
    } else {
        match inline_step(text, pos, items) {
            Err(e) => Err(e),
            Ok(s) => if s.more && pos < s.pos && s.pos <= text.len() {
                inline_group(text, s.pos, open, s.stack)
            } else {
                Err(fail(KindModel::UnclosedGroup, text, open))
            },
        }
    }
}

/// The items of a whole pattern from index `pos` on, `items` being those
/// read so far.
pub open spec fn inline_body(text: Seq<char>, pos: int, items: Seq<PatternModel>) -> Result<
    Seq<PatternModel>,
    InlineModel,
>
    decreases text.len() - pos,
{
    match inline_step(text, pos, items) {
        Err(e) => Err(e),
        Ok(s) => if !s.more {
            Ok(s.stack)
        } else if pos < s.pos && s.pos <= text.len() {
            inline_body(text, s.pos, s.stack)
        } else {
            Err(fail(KindModel::UnclosedGroup, text, pos))
        },
    }
}

/// A step that read an item ends inside the text, further on, and leaves
/// at least that item on the stack.
pub proof fn lemma_inline_step(text: Seq<char>, pos: int, stack: Seq<PatternModel>)
    requires
        0 <= pos,
    ensures
        inline_step(text, pos, stack) matches Ok(s) ==> (s.more ==> pos < s.pos <= text.len()
            && s.stack.len() > 0),
    decreases text.len() - pos, 0nat,
{
    if pos < text.len() {
        let ch = text[pos];
        if ch == '[' {
            if pos + 1 < text.len() {
                let first = if text[pos + 1] == '^' {
                    pos + 2
                } else {
                    pos + 1
                };
                lemma_inline_class_items(text, first, pos, Seq::empty(), first, None);
                lemma_inline_class_items(
                    text,
                    first + 1,
                    pos,
                    seq![ClassItem::Char('-')],
                    first,
                    None,
                );
            }
        } else if ch == '(' {
            lemma_inline_group(text, pos + 1, pos, Seq::empty());
        } else if ch == '\\' {
            lemma_inline_escape(text, pos);
        } else if ch == '{' {
            lemma_inline_quantifier(text, pos + 1);
        } else if ch == '|' {
            lemma_inline_step(text, pos + 1, Seq::empty());
        }
    }
}

/// A group that is accepted ends inside the text, further on.
pub proof fn lemma_inline_group(text: Seq<char>, pos: int, open: int, items: Seq<PatternModel>)
    requires
        0 <= pos,
    ensures
        inline_group(text, pos, open, items) matches Ok((_, after)) ==> pos < after <= text.len(),
    decreases text.len() - pos, 1nat,
{
    if pos < text.len() && text[pos] != ')' {
        lemma_inline_step(text, pos, items);
        if let Ok(s) = inline_step(text, pos, items) {
            if s.more && pos < s.pos && s.pos <= text.len() {
                lemma_inline_group(text, s.pos, open, s.stack);
            }
        }
    }
}

/// A step keeps the items well-formed: every quantifier that the parser
/// builds has its bounds in order.
pub proof fn lemma_inline_step_wf(text: Seq<char>, pos: int, stack: Seq<PatternModel>)
    requires
        0 <= pos,
        all_wf(stack),
    ensures
        inline_step(text, pos, stack) matches Ok(s) ==> all_wf(s.stack),
    decreases text.len() - pos, 0nat,
{
    if pos < text.len() {
        let ch = text[pos];
        if stack.len() > 0 {
            assert(stack.last().wf());
        }
        if ch == '(' {
            lemma_inline_group_wf(text, pos + 1, pos, Seq::empty());
        } else if ch == '{' {
            lemma_inline_quantifier(text, pos + 1);
        } else if ch == '|' {
            lemma_inline_step_wf(text, pos + 1, Seq::empty());
        }
    }
}

/// The items of a group that is accepted are well-formed.
pub proof fn lemma_inline_group_wf(text: Seq<char>, pos: int, open: int, items: Seq<PatternModel>)
    requires
        0 <= pos,
        all_wf(items),
    ensures
        inline_group(text, pos, open, items) matches Ok((found, _)) ==> all_wf(found),
    decreases text.len() - pos, 1nat,
{
    if pos < text.len() && text[pos] != ')' {
        lemma_inline_step_wf(text, pos, items);
        if let Ok(s) = inline_step(text, pos, items) {
            if s.more && pos < s.pos && s.pos <= text.len() {
                lemma_inline_group_wf(text, s.pos, open, s.stack);
            }
        }
    }
}

/// A pattern that is accepted is well-formed.
pub proof fn lemma_inline_body_wf(text: Seq<char>, pos: int, items: Seq<PatternModel>)
    requires
        0 <= pos,
        all_wf(items),
    ensures
        inline_body(text, pos, items) matches Ok(found) ==> PatternModel::Group(found).wf(),
    decreases text.len() - pos,
{
    lemma_inline_step_wf(text, pos, items);
    if let Ok(s) = inline_step(text, pos, items) {
        if s.more && pos < s.pos && s.pos <= text.len() {
            lemma_inline_body_wf(text, s.pos, s.stack);
        }
    }
}

/// An ASCII character takes one byte, so the character behind it begins
/// one byte further on.
proof fn lemma_one_byte(text: Seq<char>, pos: int)
    requires
        0 <= pos < text.len(),
        (text[pos] as u32) < 0x80,
    ensures
        utf8_len(text.take(pos + 1)) == utf8_len(text.take(pos)) + 1,
{
    lemma_utf8_take_add(text, pos, 1);
    lemma_utf8_take_first(text.skip(pos));
}

/// The slice of what has been read since the character with index `p`,
/// at which `begin` starts and which stands at byte `base`.
fn seen<'a>(from: &Iter<'a>, begin: &'a str, base: usize, Ghost(p): Ghost<int>) -> (r: &'a str)
    requires
        0 <= p <= from.pos(),
        begin@ == from.text().skip(p),
        base == utf8_len(from.text().take(p)),
    ensures
        r@ == from.text().subrange(p, from.pos()),
{
    let here = from.offset();
    proof {
        lemma_utf8_take_add(from.text(), p, from.pos() - p);
        assert(begin@.take(from.pos() - p) =~= from.text().subrange(p, from.pos()));
    }
    take_chars(begin, here - base, Ghost(from.pos() - p))
}

impl Pattern {
    /// The value of a hexadecimal digit.
    fn nibble(b: char) -> (r: Option<u8>)
        ensures
            r == hex_digit(b),
            r matches Some(v) ==> v < 16,
    {
        nibble(b)
    }

    /// Reads an escape sequence whose backslash has been read. `begin` is
    /// the pattern from that backslash on.
    fn escape<'a>(from: &mut Iter<'a>, begin: &'a str) -> (r: Result<char, InlineError<'a>>)
        requires
            old(from).wf(),
            old(from).pos() >= 1,
            old(from).text()[old(from).pos() - 1] == '\\',
            begin@ == old(from).text().skip(old(from).pos() - 1),
        ensures
            final(from).wf(),
            final(from).text() == old(from).text(),
            old(from).pos() <= final(from).pos(),
            match inline_escape(old(from).text(), old(from).pos() - 1) {
                Ok((v, after)) => r == Ok::<char, InlineError<'a>>(v) && final(from).pos() == after,
                Err(e) => r matches Err(x) && x@ == e,
            },
    {
        let ghost text = from.text();
        let ghost p = from.pos() - 1;
        proof {
            lemma_one_byte(text, p);
        }
        let base = from.offset() - 1;
        let ch = match from.next() {
            None => {
                return Err(InlineError::unclosed_escape(from.offset()));
            },
            Some(ch) => ch,
        };
        if ch == 'x' {
            let high = match from.next() {
                None => {
                    return Err(InlineError::unclosed_escape(from.offset()));
                },
                Some(c) => match Self::nibble(c) {
                    None => {
                        let seq = seen(from, begin, base, Ghost(p));
                        return Err(InlineError::invalid_escape(from.offset(), seq));
                    },
                    Some(v) => v,
                },
            };
            let low = match from.next() {
                None => {
                    return Err(InlineError::unclosed_escape(from.offset()));
                },
                Some(c) => match Self::nibble(c) {
                    None => {
                        let seq = seen(from, begin, base, Ghost(p));
                        return Err(InlineError::invalid_escape(from.offset(), seq));
                    },
                    Some(v) => v,
                },
            };
            Ok((high * 16 + low) as char)
        } else if ch == 'u' {
            let offset = from.offset();
            match from.next() {
                None => {
                    return Err(InlineError::unclosed_escape(offset));
                },
                Some(c) => {
                    if c != '{' {
                        let seq = seen(from, begin, base, Ghost(p));
                        return Err(InlineError::invalid_escape(offset, seq));
                    }
                },
            }
            let ghost d = from.pos();
            let ghost e = run_end(text, d, CharSet::HexDigit);
            let mut unicode: u32 = 0;
            let mut any = false;
            let mut body: &'a str = begin;
            proof {
                lemma_run_end(text, d, CharSet::HexDigit);
                assert(text.subrange(d, d) =~= Seq::<char>::empty());
            }
            loop
                invariant_except_break
                    0 <= p < d <= from.pos() <= e <= text.len(),
                    e == run_end(text, from.pos(), CharSet::HexDigit),
                    unicode == hex_value(text.subrange(d, from.pos())),
                    any == (from.pos() > d),
                invariant
                    from.wf(),
                    from.text() == text,
                    e == run_end(text, d, CharSet::HexDigit),
                    begin@ == text.skip(p),
                    base == utf8_len(text.take(p)),
                    offset == utf8_len(text.take(d - 1)),
                    unicode < unicode_guard(),
                    text == old(from).text(),
                    p == old(from).pos() - 1,
                    text[p + 1] == 'u',
                    text[p + 2] == '{',
                    d == p + 3,
                ensures
                    from.wf(),
                    from.text() == text,
                    from.pos() == e + 1,
                    e < text.len(),
                    text[e] == '}',
                    unicode == hex_value(text.subrange(d, e)),
                    unicode < unicode_guard(),
                    any == (e > d),
                    body@ == text.subrange(p, e),
                decreases text.len() - from.pos(),
            {
                let c = match from.peek() {
                    None => {
                        return Err(InlineError::unclosed_escape(offset));
                    },
                    Some(c) => c,
                };
                match Self::nibble(c) {
                    Some(code) => {
                        proof {
                            let k = from.pos();
                            assert(text.subrange(d, k + 1).drop_last() =~= text.subrange(d, k));
                            assert(text.subrange(d, k + 1).last() == c);
                            lemma_run_end(text, k + 1, CharSet::HexDigit);
                            lemma_hex_value_monotonic(text.subrange(d, e), k + 1 - d);
                            assert(text.subrange(d, e).take(k + 1 - d) =~= text.subrange(
                                d,
                                k + 1,
                            ));
                        }
                        from.next();
                        unicode = unicode * 16 + code as u32;
                        any = true;
                        if unicode >= 0x0FFF_FFFF {
                            return Err(InlineError::number_too_big(offset));
                        }
                    },
                    None => {
                        if c == '}' {
                            body = seen(from, begin, base, Ghost(p));
                            from.next();
                            break ;
                        } else {
                            from.next();
                            let seq = seen(from, begin, base, Ghost(p));
                            return Err(InlineError::invalid_escape(offset, seq));
                        }
                    },
                }
            }
            if !any {
                return Err(InlineError::invalid_escape(offset, body));
            }
            match char::from_u32(unicode) {
                None => Err(InlineError::invalid_escape(offset, body)),
                Some(ch) => Ok(ch),
            }
        } else {
            match plain(ch) {
                Some(v) => Ok(v),
                None => {
                    let seq = seen(from, begin, base, Ghost(p));
                    Err(InlineError::invalid_escape(from.offset(), seq))
                },
            }
        }
    }
}

/// Reads the digits of a number whose first digit, at index `pos - 1`,
/// has been read, and the character behind them. Returns that character
/// and the number, `None` where it does not fit a `usize`. `begin` is the
/// pattern from the first digit on.
fn read_number<'a>(from: &mut Iter<'a>, begin: &'a str) -> (r: Option<(char, Option<usize>)>)
    requires
        old(from).wf(),
        old(from).pos() >= 1,
        is_digit(old(from).text()[old(from).pos() - 1]),
        begin@ == old(from).text().skip(old(from).pos() - 1),
    ensures
        final(from).wf(),
        final(from).text() == old(from).text(),
        ({
            let text = old(from).text();
            let first = old(from).pos() - 1;
            let e = run_end(text, first, CharSet::Digit);
            let value = dec_value(text.subrange(first, e));
            match r {
                None => e >= text.len(),
                Some((ch, number)) => {
                    &&& first < e < text.len()
                    &&& ch == text[e]
                    &&& final(from).pos() == e + 1
                    &&& number == (if value <= usize::MAX {
                        Some(value as usize)
                    } else {
                        None::<usize>
                    })
                },
            }
        }),
{
    let ghost text = from.text();
    let ghost first = from.pos() - 1;
    let ghost e = run_end(text, first, CharSet::Digit);
    proof {
        lemma_run_end(text, first, CharSet::Digit);
        lemma_run_end(text, first + 1, CharSet::Digit);
        lemma_one_byte(text, first);
    }
    let base = from.offset() - 1;
    loop
        invariant
            from.wf(),
            from.text() == text,
            text == old(from).text(),
            first == old(from).pos() - 1,
            0 <= first < from.pos() <= e <= text.len(),
            e == run_end(text, first, CharSet::Digit),
            e == run_end(text, from.pos(), CharSet::Digit),
            begin@ == text.skip(first),
            base == utf8_len(text.take(first)),
        decreases text.len() - from.pos(),
    {
        let digits = seen(from, begin, base, Ghost(first));
        let ch = match from.next() {
            None => {
                return None;
            },
            Some(ch) => ch,
        };
        if !is_ascii_digit(ch) {
            return Some((ch, parse_decimal(digits)));
        }
        proof {
            lemma_run_end(text, from.pos(), CharSet::Digit);
        }
    }
}

impl Pattern {
    /// Reads a character class whose `[` has been read.
    fn parse_class<'a>(from: &mut Iter<'a>) -> (r: Result<Pattern, InlineError<'a>>)
        requires
            old(from).wf(),
            old(from).pos() >= 1,
            old(from).text()[old(from).pos() - 1] == '[',
        ensures
            final(from).wf(),
            final(from).text() == old(from).text(),
            match inline_class(old(from).text(), old(from).pos()) {
                Ok(((deny, list), after)) => r matches Ok(p) && p@ == PatternModel::Class(
                    deny,
                    list,
                ) && final(from).pos() == after,
                Err(e) => r matches Err(x) && x@ == e,
            },
    {
        let ghost text = from.text();
        let ghost start = from.pos();
        proof {
            lemma_one_byte(text, start - 1);
        }
        let offset = from.offset() - 1;
        let mut first_offset = from.offset();
        let mut begin = from.as_str();
        let mut first = match from.next() {
            None => {
                return Err(InlineError::unclosed_class(first_offset));
            },
            Some(c) => c,
        };
        let deny = first == '^';
        if deny {
            first_offset = from.offset();
            begin = from.as_str();
            first = match from.next() {
                None => {
                    return Err(InlineError::unclosed_class(first_offset));
                },
                Some(c) => c,
            };
        }
        if first == ']' {
            return Ok(Pattern::Class(Class::new(deny, Vec::new())));
        }
        let ghost head = from.pos() - 1;
        let mut class: Vec<ClassItem> = Vec::new();
        let mut last_offset = first_offset;
        let mut range_min: Option<(char, usize)> = None;
        let ghost mut last: int = head;
        let ghost mut pending: Option<(char, int)> = None;
        let value = if first == '\\' {
            proof {
                lemma_inline_escape(text, head);
            }
            match Self::escape(from, begin) {
                Ok(v) => v,
                Err(e) => {
                    return Err(e);
                },
            }
        } else {
            first
        };
        class.push(ClassItem::Char(value));
        proof {
            assert(class@ =~= seq![ClassItem::Char(value)]);
            assert(class@ =~= class_add(Seq::empty(), None, value, head).0);
        }
        loop
            invariant
                from.wf(),
                from.text() == text,
                text == old(from).text(),
                start == old(from).pos(),
                1 <= start <= head < from.pos(),
                offset == utf8_len(text.take(start - 1)),
                0 <= last < text.len(),
                last_offset == utf8_len(text.take(last)),
                match pending {
                    Some((ch, at)) => range_min == Some((ch, byte_offset(text, at))) && 0 <= at
                        < text.len(),
                    None => range_min is None,
                },
                inline_class(text, start) == (match inline_class_items(
                    text,
                    from.pos(),
                    start - 1,
                    class@,
                    last,
                    pending,
                ) {
                    Ok((list, after)) => Ok::<((bool, Seq<ClassItem>), int), InlineModel>(
                        ((deny, list), after),
                    ),
                    Err(e) => Err(e),
                }),
            decreases text.len() - from.pos(),
        {
            let begin = from.as_str();
            let item_offset = from.offset();
            let ghost here = from.pos();
            proof {
                if here < text.len() {
                    lemma_inline_escape(text, here);
                    lemma_utf8_take_monotonic(text, last, last);
                    if let Some((_, at)) = pending {
                        lemma_utf8_take_monotonic(text, at, at);
                    }
                }
            }
            let ch = match from.next() {
                None => {
                    return Err(InlineError::unclosed_class(offset));
                },
                Some(ch) => ch,
            };
            if ch == ']' {
                if let Some((_, range_offset)) = range_min {
                    return Err(InlineError::missing_suffix(range_offset));
                }
                return Ok(Pattern::Class(Class::new(deny, class)));
            } else if ch == '-' {
                if let Some((_, range_offset)) = range_min {
                    return Err(InlineError::missing_suffix(range_offset));
                }
                match class.pop() {
                    Some(ClassItem::Char(min)) => {
                        range_min = Some((min, last_offset));
                        proof {
                            pending = Some((min, last));
                        }
                    },
                    _ => {
                        return Err(InlineError::missing_prefix(item_offset));
                    },
                }
            } else {
                let value = if ch == '\\' {
                    match Self::escape(from, begin) {
                        Ok(v) => v,
                        Err(e) => {
                            return Err(e);
                        },
                    }
                } else {
                    ch
                };
                match range_min {
                    Some((min, range_offset)) => {
                        class.push(ClassItem::Range(min, value));
                        last_offset = range_offset;
                        range_min = None;
                        proof {
                            last = match pending {
                                Some((_, at)) => at,
                                None => last,
                            };
                            pending = None;
                        }
                    },
                    None => {
                        class.push(ClassItem::Char(value));
                        last_offset = item_offset;
                        proof {
                            last = here;
                        }
                    },
                }
            }
        }
    }

    /// Reads the bounds of a `{..}` quantifier whose `{` has been read, and
    /// applies them to `previous`.
    fn parse_quantifier<'a>(from: &mut Iter<'a>, previous: Pattern) -> (r: Result<
        Pattern,
        InlineError<'a>,
    >)
        requires
            old(from).wf(),
            old(from).pos() >= 1,
            old(from).text()[old(from).pos() - 1] == '{',
        ensures
            final(from).wf(),
            final(from).text() == old(from).text(),
            match inline_quantifier(old(from).text(), old(from).pos()) {
                Ok(((min, max), after)) => r matches Ok(p) && p@ == PatternModel::Quantifier(
                    min,
                    max,
                    Box::new(previous@),
                ) && final(from).pos() == after,
                Err(e) => r matches Err(x) && x@ == e,
            },
    {
        let ghost text = from.text();
        let ghost start = from.pos();
        proof {
            lemma_one_byte(text, start - 1);
            lemma_inline_quantifier(text, start);
        }
        let offset = from.offset() - 1;
        let begin = from.as_str();
        let next = match from.next() {
            None => {
                return Err(InlineError::unclosed_quantifier(offset));
            },
            Some(c) => c,
        };
        let number_offset = from.offset();
        let mut minimum: Option<usize> = None;
        if is_ascii_digit(next) {
            let (end, number) = match read_number(from, begin) {
                None => {
                    return Err(InlineError::unclosed_quantifier(offset));
                },
                Some(found) => found,
            };
            if end == ',' {
                match number {
                    None => {
                        return Err(InlineError::number_too_big(number_offset));
                    },
                    Some(value) => {
                        minimum = Some(value);
                    },
                }
            } else if end == '}' {
                return match number {
                    None => Err(InlineError::number_too_big(number_offset)),
                    Some(value) => Ok(Pattern::Quantifier(Quantifier::exactly(previous, value))),
                };
            } else {
                return Err(InlineError::unclosed_quantifier(offset));
            }
        } else if next != ',' {
            return Err(InlineError::unclosed_quantifier(offset));
        }
        let begin = from.as_str();
        let number_offset = from.offset();
        let next = match from.next() {
            None => {
                return Err(InlineError::unclosed_quantifier(offset));
            },
            Some(c) => c,
        };
        if next == '}' {
            return match minimum {
                Some(minimum) => Ok(Pattern::Quantifier(Quantifier::at_least(previous, minimum))),
                None => Err(InlineError::malformed_quantifier(offset)),
            };
        } else if !is_ascii_digit(next) {
            return Err(InlineError::unclosed_quantifier(offset));
        }
        let maximum = match read_number(from, begin) {
            None => {
                return Err(InlineError::unclosed_quantifier(offset));
            },
            Some((end, number)) => {
                if end != '}' {
                    return Err(InlineError::unclosed_quantifier(offset));
                }
                match number {
                    None => {
                        return Err(InlineError::number_too_big(number_offset));
                    },
                    Some(value) => value,
                }
            },
        };
        match minimum {
            Some(minimum) => {
                if minimum > maximum {
                    Err(InlineError::malformed_quantifier(offset))
                } else {
                    Ok(Pattern::Quantifier(Quantifier::new(previous, minimum, maximum)))
                }
            },
            None => Ok(Pattern::Quantifier(Quantifier::at_most(previous, maximum))),
        }
    }
}

/// The pattern that matches the single character `ch`.
fn single(ch: char) -> (r: Pattern)
    ensures
        r@ == char_model(ch),
{
    let mut text = String::new();
    text.push(ch);
    assert(text@ =~= seq![ch]);
    Pattern::Literal(text)
}

/// Takes the operand of the operator at byte `offset` from `stack`.
fn operand<'a>(stack: &mut Vec<Pattern>, offset: usize) -> (r: Result<Pattern, InlineError<'a>>)
    ensures
        match r {
            Ok(p) => old(stack)@.len() > 0 && p == old(stack)@.last() && final(stack)@ == old(
                stack,
            )@.drop_last(),
            Err(e) => old(stack)@.len() == 0 && final(stack)@ == old(stack)@ && e.offset
                == offset && e.kind@ == KindModel::MissingPrefix,
        },
{
    match stack.pop() {
        Some(p) => Ok(p),
        None => Err(InlineError::missing_prefix(offset)),
    }
}

impl Pattern {
    /// Reads the items of a group whose `(` has been read.
    fn parse_group<'a>(from: &mut Iter<'a>) -> (r: Result<Pattern, InlineError<'a>>)
        requires
            old(from).wf(),
            old(from).pos() >= 1,
            old(from).text()[old(from).pos() - 1] == '(',
        ensures
            final(from).wf(),
            final(from).text() == old(from).text(),
            match inline_group(
                old(from).text(),
                old(from).pos(),
                old(from).pos() - 1,
                Seq::empty(),
            ) {
                Ok((items, after)) => r matches Ok(p) && p@ == PatternModel::Group(items)
                    && final(from).pos() == after,
                Err(e) => r matches Err(x) && x@ == e,
            },
        decreases old(from).text().len() - old(from).pos(), 1nat,
    {
        let ghost text = from.text();
        let ghost start = from.pos();
        proof {
            lemma_one_byte(text, start - 1);
        }
        let offset = from.offset() - 1;
        let mut local: Vec<Pattern> = Vec::new();
        proof {
            lemma_views(local@);
            assert(views(local@) =~= Seq::<PatternModel>::empty());
        }
        loop
            invariant
                from.wf(),
                from.text() == text,
                text == old(from).text(),
                start == old(from).pos(),
                1 <= start <= from.pos(),
                offset == utf8_len(text.take(start - 1)),
                inline_group(text, start, start - 1, Seq::empty()) == inline_group(
                    text,
                    from.pos(),
                    start - 1,
                    views(local@),
                ),
            decreases text.len() - from.pos(),
        {
            proof {
                lemma_inline_step(text, from.pos(), views(local@));
            }
            match from.peek() {
                None => {
                    return Err(InlineError::unclosed_group(offset));
                },
                Some(ch) => {
                    if ch == ')' {
                        from.next();
                        return Ok(Pattern::Group(local));
                    }
                },
            }
            match Self::parse_once(from, &mut local) {
                Ok(_) => {},
                Err(e) => {
                    return Err(e);
                },
            }
        }
    }

    /// One step of the parser: at the end of the pattern returns `false`;
    /// else reads one item, puts it on `stack`, and returns `true`. Where it
    /// fails, `stack` is as it was, but for the operand that an operator
    /// took from it before what followed the operator failed.
    fn parse_once<'a>(from: &mut Iter<'a>, stack: &mut Vec<Pattern>) -> (r: Result<
        bool,
        InlineError<'a>,
    >)
        requires
            old(from).wf(),
        ensures
            final(from).wf(),
            final(from).text() == old(from).text(),
            r is Err ==> final(stack)@ == old(stack)@ || (old(stack)@.len() > 0 && final(stack)@
                == old(stack)@.drop_last()),
            match inline_step(old(from).text(), old(from).pos(), views(old(stack)@)) {
                Ok(s) => r == Ok::<bool, InlineError<'a>>(s.more) && final(from).pos() == s.pos
                    && views(final(stack)@) == s.stack,
                Err(e) => r matches Err(x) && x@ == e,
            },
        decreases old(from).text().len() - old(from).pos(), 0nat,
    {
        let ghost text = from.text();
        let ghost pos = from.pos();
        let ghost before = stack@;
        let begin = from.as_str();
        let offset = from.offset();
        proof {
            lemma_views(before);
        }
        let ch = match from.next() {
            None => {
                return Ok(false);
            },
            Some(ch) => ch,
        };
        let pat = if ch == '[' {
            match Self::parse_class(from) {
                Ok(p) => p,
                Err(e) => {
                    return Err(e);
                },
            }
        } else if ch == '(' {
            match Self::parse_group(from) {
                Ok(p) => p,
                Err(e) => {
                    return Err(e);
                },
            }
        } else if ch == '\\' {
            match Self::escape(from, begin) {
                Ok(v) => single(v),
                Err(e) => {
                    return Err(e);
                },
            }
        } else if ch == '?' {
            match operand(stack, offset) {
                Ok(p) => Pattern::Quantifier(Quantifier::optional(p)),
                Err(e) => {
                    return Err(e);
                },
            }
        } else if ch == '*' {
            match operand(stack, offset) {
                Ok(p) => Pattern::Quantifier(Quantifier::at_least(p, 0)),
                Err(e) => {
                    return Err(e);
                },
            }
        } else if ch == '+' {
            match operand(stack, offset) {
                Ok(p) => Pattern::Quantifier(Quantifier::at_least(p, 1)),
                Err(e) => {
                    return Err(e);
                },
            }
        } else if ch == '{' {
            let p = match operand(stack, offset) {
                Ok(p) => p,
                Err(e) => {
                    return Err(e);
                },
            };
            match Self::parse_quantifier(from, p) {
                Ok(p) => p,
                Err(e) => {
                    return Err(e);
                },
            }
        } else if ch == '|' {
            let top = match operand(stack, offset) {
                Ok(p) => p,
                Err(e) => {
                    return Err(e);
                },
            };
            let ghost alts = match views(before).last() {
                PatternModel::Or(v) => v,
                other => seq![other],
            };
            let mut rhs = match top {
                Pattern::Or(rhs) => {
                    assert(top@ == PatternModel::Or(views(rhs@)));
                    rhs
                },
                other => {
                    let mut rhs = Vec::new();
                    rhs.push(other);
                    proof {
                        lemma_views(Seq::<Pattern>::empty());
                        assert(rhs@ =~= Seq::<Pattern>::empty().push(other));
                        assert(views(rhs@) =~= seq![other@]);
                        assert(!(other@ is Or));
                    }
                    rhs
                },
            };
            assert(views(rhs@) == alts);
            let mut local: Vec<Pattern> = Vec::new();
            proof {
                lemma_views(local@);
                assert(views(local@) =~= Seq::<PatternModel>::empty());
                lemma_inline_step(text, pos + 1, Seq::empty());
            }
            match Self::parse_once(from, &mut local) {
                Ok(more) => {
                    if !more {
                        return Err(InlineError::missing_suffix(offset));
                    }
                },
                Err(e) => {
                    return Err(e);
                },
            }
            proof {
                lemma_views(local@);
                lemma_views(rhs@);
            }
            let lhs = match local.pop() {
                Some(p) => p,
                None => {
                    return Err(InlineError::missing_suffix(offset));
                },
            };
            rhs.push(lhs);
            assert(views(rhs@) == alts.push(lhs@));
            let pat = Pattern::Or(rhs);
            assert(pat@ == PatternModel::Or(alts.push(lhs@)));
            pat
        } else if ch == ')' || ch == ']' || ch == '}' {
            return Err(InlineError::closer_mismatched(offset));
        } else {
            single(ch)
        };
        proof {
            lemma_views(stack@);
        }
        stack.push(pat);
        Ok(true)
    }

    /// Parses a one-line pattern in the compact notation: its items as one
    /// group.
    pub fn parse(from: &'_ str) -> (r: Result<Pattern, InlineError<'_>>)
        ensures
            match inline_body(from@, 0, Seq::empty()) {
                Ok(items) => r matches Ok(p) && p@ == PatternModel::Group(items),
                Err(e) => r matches Err(x) && x@ == e,
            },
            r matches Ok(p) ==> p@.wf(),
    {
        proof {
            lemma_inline_body_wf(from@, 0, Seq::empty());
        }
        let mut iter = Iter::new(from);
        let mut list: Vec<Pattern> = Vec::new();
        proof {
            lemma_views(list@);
            assert(views(list@) =~= Seq::<PatternModel>::empty());
        }
        loop
            invariant
                iter.wf(),
                iter.text() == from@,
                0 <= iter.pos(),
                inline_body(from@, 0, Seq::empty()) == inline_body(
                    from@,
                    iter.pos(),
                    views(list@),
                ),
                inline_body(from@, 0, Seq::empty()) matches Ok(found) ==> PatternModel::Group(
                    found,
                ).wf(),
            decreases from@.len() - iter.pos(),
        {
            proof {
                lemma_inline_step(from@, iter.pos(), views(list@));
            }
            match Self::parse_once(&mut iter, &mut list) {
                Ok(more) => {
                    if !more {
                        return Ok(Pattern::Group(list));
                    }
                },
                Err(e) => {
                    return Err(e);
                },
            }
        }
    }
}

} // verus!
