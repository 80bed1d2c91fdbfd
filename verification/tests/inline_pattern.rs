use clr1::error::{ErrorKind, InlineError};
use clr1::lex::consume::Consume;
use clr1::pattern::pattern::{Class, ClassItem, Pattern, Quantifier};
use clr1::util::Boxed;

fn items(text: &str) -> Vec<Pattern> {
    match Pattern::parse(text) {
        Ok(Pattern::Group(items)) => items,
        other => panic!("not a group: {:?}", other),
    }
}

fn failure(text: &str) -> (ErrorKind<'_>, usize) {
    match Pattern::parse(text) {
        Err(e) => (e.kind, e.offset),
        Ok(p) => panic!("parsed: {:?}", p),
    }
}

fn ch(c: char) -> Pattern {
    Pattern::Literal(c.to_string())
}

fn class(deny: bool, list: Vec<ClassItem>) -> Pattern {
    Pattern::Class(Class { deny, list })
}

fn quant(min: usize, max: usize, what: Pattern) -> Pattern {
    Pattern::Quantifier(Quantifier { min, max, what: Boxed::new(what) })
}

#[test]
fn inline_characters_stand_for_themselves() {
    assert_eq!(items("ab c"), vec![ch('a'), ch('b'), ch(' '), ch('c')]);
    assert_eq!(items(""), vec![]);
    assert_eq!(items("\u{e9}."), vec![ch('\u{e9}'), ch('.')]);
}

#[test]
fn inline_escapes() {
    assert_eq!(items("\\n\\x41\\u{1F600}\\+"), vec![ch('\n'), ch('A'), ch('\u{1F600}'), ch('+')]);
}

#[test]
fn inline_escape_errors() {
    assert_eq!(failure("\\"), (ErrorKind::UnclosedEscape, 1));
    assert_eq!(failure("a\\x"), (ErrorKind::UnclosedEscape, 3));
    assert_eq!(failure("\\x4"), (ErrorKind::UnclosedEscape, 3));
    assert_eq!(failure("\\xZZ"), (ErrorKind::InvalidEscape("\\xZ"), 3));
    assert_eq!(failure("\\x4\u{e9}"), (ErrorKind::InvalidEscape("\\x4\u{e9}"), 5));
    assert_eq!(failure("\\q"), (ErrorKind::InvalidEscape("\\q"), 2));
    assert_eq!(failure("\\u"), (ErrorKind::UnclosedEscape, 2));
    assert_eq!(failure("\\u\u{20ac}"), (ErrorKind::InvalidEscape("\\u\u{20ac}"), 2));
    assert_eq!(failure("\\u{"), (ErrorKind::UnclosedEscape, 2));
    assert_eq!(failure("\\u{41"), (ErrorKind::UnclosedEscape, 2));
    assert_eq!(failure("\\u{}"), (ErrorKind::InvalidEscape("\\u{"), 2));
    assert_eq!(failure("\\u{4x}"), (ErrorKind::InvalidEscape("\\u{4x"), 2));
    assert_eq!(failure("\\u{D800}"), (ErrorKind::InvalidEscape("\\u{D800"), 2));
    assert_eq!(failure("\\u{110000}"), (ErrorKind::InvalidEscape("\\u{110000"), 2));
    assert_eq!(failure("\\u{FFFFFFF}"), (ErrorKind::NumberTooBig, 2));
    assert_eq!(failure("\\u{FFFFFFE}"), (ErrorKind::InvalidEscape("\\u{FFFFFFE"), 2));
}

#[test]
fn inline_classes() {
    assert_eq!(items("[a-z]"), vec![class(false, vec![ClassItem::Range('a', 'z')])]);
    assert_eq!(items("[^a-z0]"), vec![class(
        true,
        vec![ClassItem::Range('a', 'z'), ClassItem::Char('0')]
    )]);
    assert_eq!(items("[]"), vec![class(false, vec![])]);
    assert_eq!(items("[^]"), vec![class(true, vec![])]);
    assert_eq!(items("[-a]"), vec![class(false, vec![ClassItem::Char('-'), ClassItem::Char('a')])]);
    assert_eq!(items("[\\n-\\x7a]"), vec![class(false, vec![ClassItem::Range('\n', 'z')])]);
}

#[test]
fn inline_class_errors() {
    assert_eq!(failure("["), (ErrorKind::UnclosedClass, 1));
    assert_eq!(failure("[^"), (ErrorKind::UnclosedClass, 2));
    assert_eq!(failure("x[ab"), (ErrorKind::UnclosedClass, 1));
    assert_eq!(failure("[a-]"), (ErrorKind::MissingSuffix, 1));
    assert_eq!(failure("[^ab--]"), (ErrorKind::MissingSuffix, 3));
    assert_eq!(failure("[a-b-c]"), (ErrorKind::MissingPrefix, 4));
}

#[test]
fn inline_quantifiers() {
    assert_eq!(items("a?"), vec![quant(0, 1, ch('a'))]);
    assert_eq!(items("a*"), vec![quant(0, usize::MAX, ch('a'))]);
    assert_eq!(items("a+"), vec![quant(1, usize::MAX, ch('a'))]);
    assert_eq!(items("a{3}"), vec![quant(3, 3, ch('a'))]);
    assert_eq!(items("a{3,}"), vec![quant(3, usize::MAX, ch('a'))]);
    assert_eq!(items("a{,4}"), vec![quant(0, 4, ch('a'))]);
    assert_eq!(items("a{3,14}"), vec![quant(3, 14, ch('a'))]);
    assert_eq!(items("ab{2}"), vec![ch('a'), quant(2, 2, ch('b'))]);
}

#[test]
fn inline_quantifier_errors() {
    assert_eq!(failure("{2}"), (ErrorKind::MissingPrefix, 0));
    assert_eq!(failure("a{"), (ErrorKind::UnclosedQuantifier, 1));
    assert_eq!(failure("\u{e9}{"), (ErrorKind::UnclosedQuantifier, 2));
    assert_eq!(failure("a{x}"), (ErrorKind::UnclosedQuantifier, 1));
    assert_eq!(failure("a{2"), (ErrorKind::UnclosedQuantifier, 1));
    assert_eq!(failure("a{2x}"), (ErrorKind::UnclosedQuantifier, 1));
    assert_eq!(failure("a{2,x}"), (ErrorKind::UnclosedQuantifier, 1));
    assert_eq!(failure("a{2,3"), (ErrorKind::UnclosedQuantifier, 1));
    assert_eq!(failure("a{,}"), (ErrorKind::MalformedQuantifier, 1));
    assert_eq!(failure("a{5,2}"), (ErrorKind::MalformedQuantifier, 1));
    assert_eq!(failure("a{99999999999999999999999999}"), (ErrorKind::NumberTooBig, 3));
    assert_eq!(failure("a{1,99999999999999999999999999}"), (ErrorKind::NumberTooBig, 4));
}

#[test]
fn inline_groups_and_alternation() {
    assert_eq!(items("(ab)c"), vec![Pattern::Group(vec![ch('a'), ch('b')]), ch('c')]);
    assert_eq!(items("a|b|c"), vec![Pattern::Or(vec![ch('a'), ch('b'), ch('c')])]);
    assert_eq!(
        items("(a|b)+"),
        vec![quant(1, usize::MAX, Pattern::Group(vec![Pattern::Or(vec![ch('a'), ch('b')])]))]
    );
    assert_eq!(failure("(ab"), (ErrorKind::UnclosedGroup, 0));
    assert_eq!(failure("a(b(c)"), (ErrorKind::UnclosedGroup, 1));
    assert_eq!(failure("ab)"), (ErrorKind::CloserMismatched, 2));
    assert_eq!(failure("|a"), (ErrorKind::MissingPrefix, 0));
    assert_eq!(failure("a|"), (ErrorKind::MissingSuffix, 1));
}

#[test]
fn inline_pattern_then_match() {
    let pattern = Pattern::parse("[a-z]+[0-9]{2,3}").unwrap();
    assert_eq!(pattern.consume("abc1234"), Some(6));
    assert_eq!(pattern.consume("abc1"), None);
    assert_eq!(pattern.consume("1"), None);
}

#[test]
fn inline_error_constructors() {
    assert_eq!(InlineError::expected(4, ':').kind, ErrorKind::Expected(':'));
    assert_eq!(InlineError::invalid_escape(1, "\\q").kind, ErrorKind::InvalidEscape("\\q"));
    assert_eq!(InlineError::unclosed_escape(2).kind, ErrorKind::UnclosedEscape);
    assert_eq!(InlineError::unclosed_class(2).kind, ErrorKind::UnclosedClass);
    assert_eq!(InlineError::unclosed_quantifier(2).kind, ErrorKind::UnclosedQuantifier);
    assert_eq!(InlineError::unclosed_group(2).kind, ErrorKind::UnclosedGroup);
    assert_eq!(InlineError::closer_mismatched(2).kind, ErrorKind::CloserMismatched);
    assert_eq!(InlineError::malformed_quantifier(2).kind, ErrorKind::MalformedQuantifier);
    assert_eq!(InlineError::number_too_big(2).kind, ErrorKind::NumberTooBig);
    assert_eq!(InlineError::missing_prefix(2).kind, ErrorKind::MissingPrefix);
    assert_eq!(InlineError::missing_suffix(2).kind, ErrorKind::MissingSuffix);
    assert_eq!(InlineError::invalid_rule_head(0, "a@").kind, ErrorKind::InvalidRuleHead("a@"));
    let lined = InlineError::missing_suffix(9).lined(3);
    assert_eq!((lined.line, lined.offset, lined.kind), (3, 9, ErrorKind::MissingSuffix));
}
