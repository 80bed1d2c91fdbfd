//! What can go wrong while rule text is parsed, and where.
use crate::iter::Offset;
use vstd::prelude::*;

verus! {

/// The reason a parse failed.
#[derive(Debug, Clone, Copy, PartialEq, Eq)]
pub enum ErrorKind<'a> {
    /// A particular character was required.
    Expected(char),
    /// The text ended where a pattern item had to start.
    UnexpectedEOF,
    /// An escape sequence that is complete but not a known one; it carries
    /// the sequence, from its backslash on.
    InvalidEscape(&'a str),
    /// A `\u{..}` escape whose value is not a Unicode scalar value.
    InvalidUnicode,
    /// The text ended inside an escape sequence.
    UnclosedEscape,
    /// The text ended inside a character class.
    UnclosedClass,
    /// A range in a character class has no upper end.
    UnclosedClassItem,
    /// The text ended inside a `{..}` quantifier.
    UnclosedQuantifier,
    /// The text ended inside a group.
    UnclosedGroup,
    /// The text ended inside a quoted literal.
    UnclosedLiteral,
    /// A closing bracket without its opening one.
    CloserMismatched,
    /// A `{..}` quantifier that is not one of the accepted forms.
    MalformedQuantifier,
    /// A number that does not fit the type that holds it.
    NumberTooBig,
    /// An operator with nothing before it to apply to.
    MissingPrefix,
    /// An operator with nothing after it to apply to.
    MissingSuffix,
    /// A rule name that holds a character it must not hold; it carries the
    /// name.
    InvalidRuleHead(&'a str),
    /// A name was required and none was there.
    EmptyName,
}

/// The mathematical value of an [`ErrorKind`].
pub enum KindModel {
    Expected(char),
    UnexpectedEOF,
    InvalidEscape(Seq<char>),
    InvalidUnicode,
    UnclosedEscape,
    UnclosedClass,
    UnclosedClassItem,
    UnclosedQuantifier,
    UnclosedGroup,
    UnclosedLiteral,
    CloserMismatched,
    MalformedQuantifier,
    NumberTooBig,
    MissingPrefix,
    MissingSuffix,
    InvalidRuleHead(Seq<char>),
    EmptyName,
}

impl<'a> View for ErrorKind<'a> {
    type V = KindModel;

    open spec fn view(&self) -> KindModel {
        match *self {
            ErrorKind::Expected(c) => KindModel::Expected(c),
            ErrorKind::UnexpectedEOF => KindModel::UnexpectedEOF,
            ErrorKind::InvalidEscape(s) => KindModel::InvalidEscape(s@),
            ErrorKind::InvalidUnicode => KindModel::InvalidUnicode,
            ErrorKind::UnclosedEscape => KindModel::UnclosedEscape,
            ErrorKind::UnclosedClass => KindModel::UnclosedClass,
            ErrorKind::UnclosedClassItem => KindModel::UnclosedClassItem,
            ErrorKind::UnclosedQuantifier => KindModel::UnclosedQuantifier,
            ErrorKind::UnclosedGroup => KindModel::UnclosedGroup,
            ErrorKind::UnclosedLiteral => KindModel::UnclosedLiteral,
            ErrorKind::CloserMismatched => KindModel::CloserMismatched,
            ErrorKind::MalformedQuantifier => KindModel::MalformedQuantifier,
            ErrorKind::NumberTooBig => KindModel::NumberTooBig,
            ErrorKind::MissingPrefix => KindModel::MissingPrefix,
            ErrorKind::MissingSuffix => KindModel::MissingSuffix,
            ErrorKind::InvalidRuleHead(s) => KindModel::InvalidRuleHead(s@),
            ErrorKind::EmptyName => KindModel::EmptyName,
        }
    }
}

impl KindModel {
    /// This kind of error at the position `at`.
    pub open spec fn at(self, at: Offset) -> ErrorModel {
        ErrorModel { line: at.0, offset: at.1, kind: self }
    }

    /// This kind of error at byte `offset` of a one-line pattern.
    pub open spec fn inline(self, offset: int) -> InlineModel {
        InlineModel { offset: offset as usize, kind: self }
    }
}

impl<'a> ErrorKind<'a> {
    /// This kind of error at the position `at`.
    pub fn at(self, at: Offset) -> (e: Error<'a>)
        ensures
            e@ == self@.at(at),
    {
        Error::new(at.line(), at.column(), self)
    }
}

/// The mathematical value of an [`InlineError`].
pub struct InlineModel {
    pub offset: usize,
    pub kind: KindModel,
}

/// An error in a one-line pattern, at a byte offset into it.
#[derive(Debug, Clone, Copy, PartialEq, Eq)]
pub struct InlineError<'a> {
    pub offset: usize,
    pub kind: ErrorKind<'a>,
}

impl<'a> View for InlineError<'a> {
    type V = InlineModel;

    open spec fn view(&self) -> InlineModel {
        InlineModel { offset: self.offset, kind: self.kind@ }
    }
}

/// The mathematical value of an [`Error`].
pub struct ErrorModel {
    pub line: usize,
    pub offset: usize,
    pub kind: KindModel,
}

/// An error at a line and a column of the source text, both counted from 0.
#[derive(Debug, Clone, Copy, PartialEq, Eq)]
pub struct Error<'a> {
    pub line: usize,
    pub offset: usize,
    pub kind: ErrorKind<'a>,
}

impl<'a> View for Error<'a> {
    type V = ErrorModel;

    open spec fn view(&self) -> ErrorModel {
        ErrorModel { line: self.line, offset: self.offset, kind: self.kind@ }
    }
}

impl<'a> Error<'a> {
    pub fn new(line: usize, offset: usize, kind: ErrorKind<'a>) -> (e: Self)
        ensures
            e.line == line,
            e.offset == offset,
            e.kind == kind,
    {
        Self { line, offset, kind }
    }
}

impl<'a> InlineError<'a> {
    /// The same error, known to lie on line `line`.
    pub fn lined(self, line: usize) -> (e: Error<'a>)
        ensures
            e.line == line,
            e.offset == self.offset,
            e.kind == self.kind,
    {
        Error::new(line, self.offset, self.kind)
    }

    pub fn expected(offset: usize, expected: char) -> (e: Self)
        ensures
            e.offset == offset,
            e.kind == ErrorKind::Expected(expected),
    {
        Self { offset, kind: ErrorKind::Expected(expected) }
    }

    pub fn invalid_escape(offset: usize, seq: &'a str) -> (e: Self)
        ensures
            e.offset == offset,
            e.kind == ErrorKind::InvalidEscape(seq),
    {
        Self { offset, kind: ErrorKind::InvalidEscape(seq) }
    }

    pub fn unclosed_escape(offset: usize) -> (e: Self)
        ensures
            e.offset == offset,
            e.kind == ErrorKind::<'a>::UnclosedEscape,
    {
        Self { offset, kind: ErrorKind::UnclosedEscape }
    }

    pub fn unclosed_class(offset: usize) -> (e: Self)
        ensures
            e.offset == offset,
            e.kind == ErrorKind::<'a>::UnclosedClass,
    {
        Self { offset, kind: ErrorKind::UnclosedClass }
    }

    pub fn unclosed_quantifier(offset: usize) -> (e: Self)
        ensures
            e.offset == offset,
            e.kind == ErrorKind::<'a>::UnclosedQuantifier,
    {
        Self { offset, kind: ErrorKind::UnclosedQuantifier }
    }

    pub fn unclosed_group(offset: usize) -> (e: Self)
        ensures
            e.offset == offset,
            e.kind == ErrorKind::<'a>::UnclosedGroup,
    {
        Self { offset, kind: ErrorKind::UnclosedGroup }
    }

    pub fn closer_mismatched(offset: usize) -> (e: Self)
        ensures
            e.offset == offset,
            e.kind == ErrorKind::<'a>::CloserMismatched,
    {
        Self { offset, kind: ErrorKind::CloserMismatched }
    }

    pub fn malformed_quantifier(offset: usize) -> (e: Self)
        ensures
            e.offset == offset,
            e.kind == ErrorKind::<'a>::MalformedQuantifier,
    {
        Self { offset, kind: ErrorKind::MalformedQuantifier }
    }

    pub fn number_too_big(offset: usize) -> (e: Self)
        ensures
            e.offset == offset,
            e.kind == ErrorKind::<'a>::NumberTooBig,
    {
        Self { offset, kind: ErrorKind::NumberTooBig }
    }

    pub fn missing_prefix(offset: usize) -> (e: Self)
        ensures
            e.offset == offset,
            e.kind == ErrorKind::<'a>::MissingPrefix,
    {
        Self { offset, kind: ErrorKind::MissingPrefix }
    }

    pub fn missing_suffix(offset: usize) -> (e: Self)
        ensures
            e.offset == offset,
            e.kind == ErrorKind::<'a>::MissingSuffix,
    {
        Self { offset, kind: ErrorKind::MissingSuffix }
    }

    pub fn invalid_rule_head(offset: usize, name: &'a str) -> (e: Self)
        ensures
            e.offset == offset,
            e.kind == ErrorKind::InvalidRuleHead(name),
    {
        Self { offset, kind: ErrorKind::InvalidRuleHead(name) }
    }
}

} // verus!
