use clr1::lex::consume::Consume;
use clr1::lex::lex::{Lexer, Rule};
use clr1::pattern::pattern::{Class, ClassItem, Pattern, Quantifier};
use clr1::util::Boxed;

fn lower_run() -> Pattern {
    Pattern::Quantifier(Quantifier {
        min: 1,
        max: usize::MAX,
        what: Boxed::new(Pattern::Class(Class {
            deny: false,
            list: vec![ClassItem::Range('a', 'z')],
        })),
    })
}

#[test]
fn longest_match_beats_earlier_rule() {
    let lexer = Lexer(vec![
        Rule::new(0, Pattern::Literal("if".to_string())),
        Rule::new(1, lower_run()),
    ]);
    let tokens = lexer.lex("iffy").unwrap();
    assert_eq!(tokens.len(), 1);
    assert_eq!(tokens[0].kind(), 1);
    assert_eq!(tokens[0].value(), "iffy");
}

#[test]
fn earlier_rule_wins_a_tie() {
    let lexer = Lexer(vec![
        Rule::new(0, Pattern::Literal("if".to_string())),
        Rule::new(1, lower_run()),
    ]);
    let token = lexer.lex_once("if(").unwrap();
    assert_eq!(token.kind(), 0);
    assert_eq!(token.value(), "if");
}

#[test]
fn literal_consumes_its_bytes() {
    assert_eq!(Pattern::Literal("é".to_string()).consume("été"), Some(2));
}

fn digit() -> Pattern {
    Pattern::Class(Class { deny: false, list: vec![ClassItem::Range('0', '9')] })
}

fn number_rules() -> Vec<Rule> {
    vec![
        Rule::new(0, digit()),
        Rule::new(
            1,
            Pattern::Quantifier(Quantifier { min: 1, max: usize::MAX, what: Boxed::new(digit()) }),
        ),
    ]
}

#[test]
fn number_then_failure_at_the_letter() {
    let lexer = Lexer(number_rules());
    let first = lexer.lex_once("42x").unwrap();
    assert_eq!((first.kind(), first.value()), (1, "42"));
    assert_eq!(lexer.lex_once("x"), None);
    assert_eq!(lexer.lex("42x"), Err(2));
    assert_eq!(lexer.lex("x42"), Err(0));
}

#[test]
fn number_then_letter() {
    let mut rules = number_rules();
    rules.push(Rule::new(2, lower_run()));
    let lexer = Lexer(rules);
    let tokens = lexer.lex("42x").unwrap();
    let seen: Vec<(usize, &str)> = tokens.iter().map(|t| (t.kind(), t.value())).collect();
    assert_eq!(seen, vec![(1, "42"), (2, "x")]);
}

#[test]
fn single_digit_goes_to_the_first_rule() {
    let lexer = Lexer(number_rules());
    let tokens = lexer.lex("7").unwrap();
    assert_eq!((tokens[0].kind(), tokens[0].value()), (0, "7"));
}

#[test]
fn tokens_cover_the_input() {
    let lexer = Lexer(vec![
        Rule::new(0, lower_run()),
        Rule::new(1, Pattern::Literal(" ".to_string())),
        Rule::new(2, Pattern::Literal("\u{e9}t\u{e9}".to_string())),
    ]);
    let input = "ab \u{e9}t\u{e9} c";
    let tokens = lexer.lex(input).unwrap();
    let joined: String = tokens.iter().map(|t| t.value()).collect();
    assert_eq!(joined, input);
    let kinds: Vec<usize> = tokens.iter().map(|t| t.kind()).collect();
    assert_eq!(kinds, vec![0, 1, 2, 1, 0]);
    assert_eq!(lexer.lex("ab \u{e9}t!"), Err(3));
}

#[test]
fn empty_input_has_no_tokens() {
    let lexer = Lexer(number_rules());
    assert_eq!(lexer.lex(""), Ok(vec![]));
    assert_eq!(lexer.lex_once(""), None);
    assert_eq!(Lexer(vec![]).lex("a"), Err(0));
}

#[test]
fn empty_match_can_win() {
    let anything = Pattern::Quantifier(Quantifier {
        min: 0,
        max: usize::MAX,
        what: Boxed::new(Pattern::Literal("a".to_string())),
    });
    let lexer = Lexer(vec![Rule::new(0, anything)]);
    let token = lexer.lex_once("b").unwrap();
    assert_eq!((token.kind(), token.value()), (0, ""));
    assert_eq!(lexer.lex("aab"), Err(2));
}

#[test]
fn wildcard_wins_at_the_end_of_input() {
    let wildcard = Pattern::Class(Class { deny: true, list: vec![] });
    let lexer = Lexer(vec![Rule::new(5, wildcard)]);
    let token = lexer.lex_once("").unwrap();
    assert_eq!((token.kind(), token.value()), (5, ""));
    let token = lexer.lex_once("\u{e9}x").unwrap();
    assert_eq!((token.kind(), token.value()), (5, "\u{e9}"));
}

#[test]
fn empty_winner_yields_to_a_longer_match_only() {
    let empty = Pattern::Literal(String::new());
    let lexer = Lexer(vec![
        Rule::new(0, empty),
        Rule::new(1, Pattern::Literal(String::new())),
        Rule::new(2, Pattern::Literal("ab".to_string())),
    ]);
    let token = lexer.lex_once("abc").unwrap();
    assert_eq!((token.kind(), token.value()), (2, "ab"));
    let token = lexer.lex_once("xyz").unwrap();
    assert_eq!((token.kind(), token.value()), (0, ""));
    assert_eq!(lexer.lex("abx"), Err(2));
    assert_eq!(lexer.lex("abab").map(|v| v.len()), Ok(2));
}
