use clr1::error::ErrorKind;
use clr1::lex::lex::{Lexer, Rule};
use clr1::pattern::pattern::{Class, ClassItem, Pattern, Quantifier};
use clr1::store::Store;
use clr1::util::Boxed;

fn digits() -> Pattern {
    Pattern::Class(Class::new(false, vec![ClassItem::Range('0', '9')]))
}

#[test]
fn test() {
    let mut store = Store::new();
    let lexer = Lexer::parse(
        r#"
# Basic character classes and quantifiers
Digit : [0-9] ;
Hex   : [0-9a-fA-F] ;

# Testing the fixed quantifier logic {n,m}
# This matches an IPv4 address (e.g., 192.168.1.1)
IPv4 : ([0-9]{1,3} '.'){3} [0-9]{1,3} ;

# Testing references to other rules and alternation
# Matches '0x' followed by hex digits OR just digits
Number : '0x' Hex+ | Digit+ ;

# Testing grouping and whitespace
# Matches a simple variable assignment like "x = 10"
Assignment : [a-z]+ [ \t]* '=' [ \t]* Number ;

# Testing string literals with escaped quotes
# Matches "hello \"world\""
String : '"' ( [^"\\\n] | ('\\' .) )* '"' ;
            "#,
        &mut store,
    )
    .unwrap();
    assert_eq!(lexer.0.len(), 6);
    assert_eq!(store.get(lexer.0[3].id), Some("Number"));
}

#[test]
fn rules_come_in_their_order() {
    let mut store = Store::new();
    let lexer = Lexer::parse("Digit : [0-9] ;\n# note\nNumber : Digit+ ;\n", &mut store).unwrap();
    assert_eq!(
        lexer,
        Lexer(vec![
            Rule::new(0, Pattern::Group(vec![digits()])),
            Rule::new(
                1,
                Pattern::Group(vec![Pattern::Quantifier(Quantifier {
                    min: 1,
                    max: usize::MAX,
                    what: Boxed::new(Pattern::Reference(0, None)),
                })])
            ),
        ])
    );
    assert_eq!(store.get(0), Some("Digit"));
    assert_eq!(store.get(1), Some("Number"));
}

#[test]
fn empty_file_has_no_rules() {
    let mut store = Store::new();
    assert_eq!(Lexer::parse("", &mut store), Ok(Lexer(vec![])));
    assert_eq!(Lexer::parse(" \n# only a comment", &mut store), Ok(Lexer(vec![])));
}

#[test]
fn a_name_given_twice_keeps_its_id() {
    let mut store = Store::new();
    let lexer = Lexer::parse("A : 'a' ; B : 'b' ; A : 'c' ;", &mut store).unwrap();
    let ids: Vec<usize> = lexer.0.iter().map(|r| r.id).collect();
    assert_eq!(ids, vec![0, 1, 0]);
}

fn failure(text: &str) -> (ErrorKind<'_>, usize, usize) {
    let mut store = Store::new();
    match Lexer::parse(text, &mut store) {
        Err(e) => (e.kind, e.line, e.offset),
        Ok(l) => panic!("parsed: {:?}", l),
    }
}

#[test]
fn rule_head_errors() {
    assert_eq!(failure("\n  : 'a' ;"), (ErrorKind::EmptyName, 1, 2));
    assert_eq!(failure("a@b : 'a' ;"), (ErrorKind::InvalidRuleHead("a@b"), 0, 0));
    assert_eq!(failure("A 'a' ;"), (ErrorKind::Expected(':'), 0, 2));
    assert_eq!(failure("Name"), (ErrorKind::Expected(':'), 0, 4));
    assert_eq!(failure("A : 'a' ;\nName  "), (ErrorKind::Expected(':'), 1, 4));
}

#[test]
fn body_errors_pass_through() {
    assert_eq!(failure("A : 'a' ;\nB : [a- ;"), (ErrorKind::UnclosedClass, 1, 4));
    assert_eq!(failure("A : 'a'"), (ErrorKind::UnexpectedEOF, 0, 7));
    assert_eq!(failure("A : ? ;"), (ErrorKind::MissingPrefix, 0, 4));
}
