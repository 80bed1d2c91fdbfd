use clr1::error::{Error, ErrorKind};
use clr1::iter::{Iter, Offset};
use clr1::pattern::parse::{parse, parse_once};
use clr1::pattern::pattern::{Class, ClassItem, Pattern, Quantifier};
use clr1::store::Store;
use clr1::util::Boxed;

fn body(text: &str) -> Result<Pattern, Error<'_>> {
    let mut iter = Iter::new(text);
    let mut store = Store::new();
    parse(&mut iter, &mut store)
}

fn items(text: &str) -> Vec<Pattern> {
    match body(text) {
        Ok(Pattern::Group(items)) => items,
        other => panic!("not a group: {:?}", other),
    }
}

fn failure(text: &str) -> (ErrorKind<'_>, usize, usize) {
    match body(text) {
        Err(e) => (e.kind, e.line, e.offset),
        Ok(p) => panic!("parsed: {:?}", p),
    }
}

fn lit(text: &str) -> Pattern {
    Pattern::Literal(text.to_string())
}

fn class(deny: bool, list: Vec<ClassItem>) -> Pattern {
    Pattern::Class(Class { deny, list })
}

fn quant(min: usize, max: usize, what: Pattern) -> Pattern {
    Pattern::Quantifier(Quantifier { min, max, what: Boxed::new(what) })
}

#[test]
fn literal_is_taken_verbatim() {
    assert_eq!(items("'abc';"), vec![lit("abc")]);
    assert_eq!(items("  'a b'  ;"), vec![lit("a b")]);
    assert_eq!(items("'';"), vec![lit("")]);
}

#[test]
fn every_one_letter_escape_has_its_character() {
    let pairs = [
        ('n', '\n'),
        ('r', '\r'),
        ('t', '\t'),
        ('v', '\x0B'),
        ('\\', '\\'),
        ('\'', '\''),
        ('{', '{'),
        ('}', '}'),
        ('[', '['),
        (']', ']'),
        ('(', '('),
        (')', ')'),
        ('|', '|'),
        ('?', '?'),
        ('*', '*'),
        ('+', '+'),
        ('"', '"'),
    ];
    for (letter, value) in pairs {
        let text = format!("'\\{}';", letter);
        assert_eq!(items(&text), vec![lit(&value.to_string())], "escape {}", letter);
    }
}

#[test]
fn hex_escape_gives_the_byte_as_character() {
    assert_eq!(items("'\\x41';"), vec![lit("A")]);
    assert_eq!(items("'\\x7a\\x0A';"), vec![lit("z\n")]);
    assert_eq!(items("'\\xe9';"), vec![lit("\u{e9}")]);
}

#[test]
fn unicode_escape_gives_the_scalar() {
    assert_eq!(items("'\\u{1F600}';"), vec![lit("\u{1F600}")]);
    assert_eq!(items("'\\u{41}';"), vec![lit("A")]);
    assert_eq!(items("'\\u{00000041}';"), vec![lit("A")]);
}

#[test]
fn incomplete_hex_escape_is_unclosed() {
    assert_eq!(failure("'\\x4"), (ErrorKind::UnclosedEscape, 0, 1));
    assert_eq!(failure("'\\x"), (ErrorKind::UnclosedEscape, 0, 1));
    assert_eq!(failure("'\\"), (ErrorKind::UnclosedEscape, 0, 1));
}

#[test]
fn malformed_hex_escape_is_invalid() {
    assert_eq!(failure("'\\xZZ';"), (ErrorKind::InvalidEscape("\\xZ"), 0, 3));
    assert_eq!(failure("'\\x4Z';"), (ErrorKind::InvalidEscape("\\x4Z"), 0, 4));
    assert_eq!(failure("'\\x4';"), (ErrorKind::InvalidEscape("\\x4'"), 0, 4));
}

#[test]
fn unknown_escape_is_invalid() {
    assert_eq!(failure("'\\q';"), (ErrorKind::InvalidEscape("\\q"), 0, 1));
    assert_eq!(failure("'a\\\u{e9}';"), (ErrorKind::InvalidEscape("\\\u{e9}"), 0, 2));
}

#[test]
fn unicode_escape_errors() {
    assert_eq!(failure("'\\u{110000}';"), (ErrorKind::InvalidUnicode, 0, 4));
    assert_eq!(failure("'\\u{D800}';"), (ErrorKind::InvalidUnicode, 0, 4));
    assert_eq!(failure("'\\u{FFFFFFFFF}';"), (ErrorKind::NumberTooBig, 0, 4));
    assert_eq!(failure("'\\u{}';"), (ErrorKind::InvalidEscape("\\u{}"), 0, 1));
    assert_eq!(failure("'\\u{12"), (ErrorKind::UnclosedEscape, 0, 4));
    assert_eq!(failure("'\\u{12x}';"), (ErrorKind::InvalidEscape("\\u{12x"), 0, 4));
    assert_eq!(failure("'\\uX';"), (ErrorKind::InvalidEscape("\\uX"), 0, 1));
    assert_eq!(failure("'\\u"), (ErrorKind::UnclosedEscape, 0, 1));
    assert_eq!(failure("'\\u{"), (ErrorKind::UnclosedEscape, 0, 1));
}

#[test]
fn unclosed_literal_points_at_its_quote() {
    assert_eq!(failure(" 'abc"), (ErrorKind::UnclosedLiteral, 0, 1));
}

#[test]
fn classes() {
    assert_eq!(items("[a-z];"), vec![class(false, vec![ClassItem::Range('a', 'z')])]);
    assert_eq!(items("[^a-z];"), vec![class(true, vec![ClassItem::Range('a', 'z')])]);
    assert_eq!(items("[];"), vec![class(false, vec![])]);
    assert_eq!(items("[^];"), vec![class(true, vec![])]);
    assert_eq!(
        items("[0-9a-fA-F_];"),
        vec![class(
            false,
            vec![
                ClassItem::Range('0', '9'),
                ClassItem::Range('a', 'f'),
                ClassItem::Range('A', 'F'),
                ClassItem::Char('_'),
            ]
        )]
    );
    assert_eq!(
        items("[ \\t\\]];"),
        vec![class(false, vec![ClassItem::Char(' '), ClassItem::Char('\t'), ClassItem::Char(']')])]
    );
    assert_eq!(items("[\\x30-\\x39];"), vec![class(false, vec![ClassItem::Range('0', '9')])]);
}

#[test]
fn dash_in_a_class() {
    assert_eq!(items("[-];"), vec![class(false, vec![ClassItem::Char('-')])]);
    assert_eq!(
        items("[-a];"),
        vec![class(false, vec![ClassItem::Char('-'), ClassItem::Char('a')])]
    );
    assert_eq!(failure("[a-];"), (ErrorKind::UnclosedClassItem, 0, 1));
    assert_eq!(failure("[a-"), (ErrorKind::UnclosedClassItem, 0, 1));
    assert_eq!(failure("[a-b-c];"), (ErrorKind::MissingPrefix, 0, 4));
    assert_eq!(failure("[a-b-"), (ErrorKind::MissingPrefix, 0, 4));
    assert_eq!(
        items("[a-z-];"),
        vec![class(false, vec![ClassItem::Range('a', 'z'), ClassItem::Char('-')])]
    );
    assert_eq!(
        items("[a-b-\r];"),
        vec![class(false, vec![ClassItem::Range('a', 'b'), ClassItem::Char('-')])]
    );
}

#[test]
fn unclosed_class_points_at_its_bracket() {
    assert_eq!(failure(" [abc"), (ErrorKind::UnclosedClass, 0, 1));
    assert_eq!(failure("[^"), (ErrorKind::UnclosedClass, 0, 0));
}

#[test]
fn wildcard_is_the_class_that_denies_nothing() {
    assert_eq!(items(".;"), vec![class(true, vec![])]);
}

#[test]
fn quantifier_shorthands() {
    assert_eq!(items("'a'?;"), vec![quant(0, 1, lit("a"))]);
    assert_eq!(items("'a'*;"), vec![quant(0, usize::MAX, lit("a"))]);
    assert_eq!(items("'a'+;"), vec![quant(1, usize::MAX, lit("a"))]);
    assert_eq!(items("'a' + ;"), vec![quant(1, usize::MAX, lit("a"))]);
}

#[test]
fn quantifier_bodies() {
    assert_eq!(items("'a'{2};"), vec![quant(2, 2, lit("a"))]);
    assert_eq!(items("'a'{2,};"), vec![quant(2, usize::MAX, lit("a"))]);
    assert_eq!(items("'a'{,3};"), vec![quant(0, 3, lit("a"))]);
    assert_eq!(items("'a'{2,5};"), vec![quant(2, 5, lit("a"))]);
    assert_eq!(items("'a'{0};"), vec![quant(0, 0, lit("a"))]);
    assert_eq!(items("'a'{007,010};"), vec![quant(7, 10, lit("a"))]);
}

#[test]
fn quantifier_errors() {
    assert_eq!(failure("'a'{5,2};"), (ErrorKind::MalformedQuantifier, 0, 3));
    assert_eq!(failure("'a'{,};"), (ErrorKind::MalformedQuantifier, 0, 3));
    assert_eq!(failure("'a'{x};"), (ErrorKind::MalformedQuantifier, 0, 3));
    assert_eq!(failure("'a'{2x};"), (ErrorKind::MalformedQuantifier, 0, 5));
    assert_eq!(failure("'a'{2,x};"), (ErrorKind::MalformedQuantifier, 0, 6));
    assert_eq!(failure("'a'{2,3x};"), (ErrorKind::MalformedQuantifier, 0, 7));
    assert_eq!(failure("'a'{"), (ErrorKind::UnclosedQuantifier, 0, 3));
    assert_eq!(failure("'a'{2"), (ErrorKind::UnclosedQuantifier, 0, 3));
    assert_eq!(failure("'a'{2,"), (ErrorKind::UnclosedQuantifier, 0, 3));
    assert_eq!(failure("'a'{,"), (ErrorKind::UnclosedQuantifier, 0, 3));
    assert_eq!(failure("'a'{2,3"), (ErrorKind::UnclosedQuantifier, 0, 3));
    assert_eq!(
        failure("'a'{99999999999999999999999999};"),
        (ErrorKind::NumberTooBig, 0, 4)
    );
    assert_eq!(
        failure("'a'{1,99999999999999999999999999};"),
        (ErrorKind::NumberTooBig, 0, 6)
    );
}

#[test]
fn failed_step_leaves_the_stack() {
    for text in ["?", " *", "+", "{2}", "|'a'"] {
        let mut iter = Iter::new(text);
        let mut store = Store::new();
        let mut stack: Vec<Pattern> = Vec::new();
        let failed = parse_once(&mut iter, &mut stack, &mut store).unwrap_err();
        assert_eq!(failed.kind, ErrorKind::MissingPrefix);
        assert!(stack.is_empty());
        assert_eq!(store.len(), 0);
    }
    let mut iter = Iter::new("{x}");
    let mut store = Store::new();
    let mut stack = vec![lit("a"), lit("b")];
    let failed = parse_once(&mut iter, &mut stack, &mut store).unwrap_err();
    assert_eq!(failed.kind, ErrorKind::MalformedQuantifier);
    assert_eq!(stack, vec![lit("a")]);
    let mut iter = Iter::new("[a");
    let mut stack = vec![lit("a"), lit("b")];
    assert!(parse_once(&mut iter, &mut stack, &mut store).is_err());
    assert_eq!(stack, vec![lit("a"), lit("b")]);
}

#[test]
fn operators_need_something_before_them() {
    assert_eq!(failure("?;"), (ErrorKind::MissingPrefix, 0, 0));
    assert_eq!(failure(" *;"), (ErrorKind::MissingPrefix, 0, 1));
    assert_eq!(failure("+;"), (ErrorKind::MissingPrefix, 0, 0));
    assert_eq!(failure("{2};"), (ErrorKind::MissingPrefix, 0, 0));
    assert_eq!(failure("|'a';"), (ErrorKind::MissingPrefix, 0, 0));
    assert_eq!(failure("('a' (? ));"), (ErrorKind::MissingPrefix, 0, 6));
}

#[test]
fn groups() {
    assert_eq!(
        items("('a' 'b');"),
        vec![Pattern::Group(vec![lit("a"), lit("b")])]
    );
    assert_eq!(items("();"), vec![Pattern::Group(vec![])]);
    assert_eq!(
        items("(('a')+ 'b'){2};"),
        vec![quant(
            2,
            2,
            Pattern::Group(vec![quant(1, usize::MAX, Pattern::Group(vec![lit("a")])), lit("b")])
        )]
    );
}

#[test]
fn group_errors() {
    assert_eq!(failure(" ('a'"), (ErrorKind::UnclosedGroup, 0, 1));
    assert_eq!(failure("('a' ;)"), (ErrorKind::UnclosedGroup, 0, 0));
    assert_eq!(failure("("), (ErrorKind::UnclosedGroup, 0, 0));
    assert_eq!(failure(")"), (ErrorKind::CloserMismatched, 0, 0));
    assert_eq!(failure("'a' ]"), (ErrorKind::CloserMismatched, 0, 4));
    assert_eq!(failure("'a'}"), (ErrorKind::CloserMismatched, 0, 3));
}

#[test]
fn alternation_is_one_flat_list() {
    assert_eq!(
        items("'a'|'b'|'c';"),
        vec![Pattern::Or(vec![lit("a"), lit("b"), lit("c")])]
    );
    assert_eq!(
        items("'a' | 'b' 'c';"),
        vec![Pattern::Or(vec![lit("a"), lit("b")]), lit("c")]
    );
}

#[test]
fn alternation_errors() {
    assert_eq!(failure("'a'|;"), (ErrorKind::MissingSuffix, 0, 3));
    assert_eq!(failure("'a' | "), (ErrorKind::UnexpectedEOF, 0, 6));
    assert_eq!(failure("'a'|?;"), (ErrorKind::MissingPrefix, 0, 4));
}

#[test]
fn end_of_input_before_the_semicolon() {
    assert_eq!(failure("'a'"), (ErrorKind::UnexpectedEOF, 0, 3));
    assert_eq!(failure(""), (ErrorKind::UnexpectedEOF, 0, 0));
    assert_eq!(failure("'a'\n  "), (ErrorKind::UnexpectedEOF, 1, 2));
}

#[test]
fn references_are_interned() {
    let text = "Digit+ Hex Digit@first Other_1@n ;";
    let mut iter = Iter::new(text);
    let mut store = Store::new();
    let parsed = parse(&mut iter, &mut store).unwrap();
    assert_eq!(
        parsed,
        Pattern::Group(vec![
            quant(1, usize::MAX, Pattern::Reference(0, None)),
            Pattern::Reference(1, None),
            Pattern::Reference(0, Some(2)),
            Pattern::Reference(3, Some(4)),
        ])
    );
    assert_eq!(store.len(), 5);
    assert_eq!(store.get(0), Some("Digit"));
    assert_eq!(store.get(1), Some("Hex"));
    assert_eq!(store.get(2), Some("first"));
    assert_eq!(store.get(3), Some("Other_1"));
    assert_eq!(store.get(4), Some("n"));
    assert_eq!(store.get(5), None);
}

#[test]
fn reference_stops_before_an_operator() {
    assert_eq!(
        items("a|b;"),
        vec![Pattern::Or(vec![Pattern::Reference(0, None), Pattern::Reference(1, None)])]
    );
    assert_eq!(items("ab(c);").len(), 2);
}

#[test]
fn capture_needs_a_name() {
    assert_eq!(failure("Digit@ ;"), (ErrorKind::EmptyName, 0, 5));
    assert_eq!(failure("Digit@"), (ErrorKind::EmptyName, 0, 5));
}

#[test]
fn errors_carry_line_and_column() {
    assert_eq!(failure("'a'\n  )"), (ErrorKind::CloserMismatched, 1, 2));
    assert_eq!(failure("'a'\r\n\r\n 'b' ]"), (ErrorKind::CloserMismatched, 2, 5));
    assert_eq!(failure("'a\nb' ?? {x}"), (ErrorKind::MalformedQuantifier, 1, 6));
}

#[test]
fn parsing_stops_behind_the_semicolon() {
    let text = "'a' ; 'b' ;";
    let mut iter = Iter::new(text);
    let mut store = Store::new();
    assert_eq!(parse(&mut iter, &mut store), Ok(Pattern::Group(vec![lit("a")])));
    assert_eq!(parse(&mut iter, &mut store), Ok(Pattern::Group(vec![lit("b")])));
    assert_eq!(
        parse(&mut iter, &mut store),
        Err(ErrorKind::UnexpectedEOF.at(Offset::new(0, 11)))
    );
}

#[test]
fn where_error_stands() {
    let e = ErrorKind::MissingPrefix.at(Offset::new(3, 7));
    assert_eq!(e, Error::new(3, 7, ErrorKind::MissingPrefix));
    assert_eq!((e.line, e.offset), (3, 7));
}
