use clr1::lex::consume::Consume;
use clr1::pattern::pattern::{Class, ClassItem, Pattern, Quantifier};
use clr1::util::Boxed;

fn lit(text: &str) -> Pattern {
    Pattern::Literal(text.to_string())
}

fn class(deny: bool, list: Vec<ClassItem>) -> Pattern {
    Pattern::Class(Class::new(deny, list))
}

fn quant(min: usize, max: usize, what: Pattern) -> Pattern {
    Pattern::Quantifier(Quantifier { min, max, what: Boxed::new(what) })
}

#[test]
fn char_matches_itself() {
    assert_eq!('a'.consume("abc"), Some(1));
    assert_eq!('a'.consume("bc"), None);
    assert_eq!('a'.consume(""), None);
    assert_eq!('\u{20ac}'.consume("\u{20ac}1"), Some(3));
}

#[test]
fn str_matches_as_prefix() {
    assert_eq!("if".consume("iffy"), Some(2));
    assert_eq!("if".consume("i"), None);
    assert_eq!("".consume("x"), Some(0));
    assert_eq!("\u{e9}t\u{e9}".consume("\u{e9}t\u{e9}s"), Some(5));
}

#[test]
fn class_item_matches_one_character() {
    assert_eq!(ClassItem::Char('x').consume("xy"), Some(1));
    assert_eq!(ClassItem::Range('a', 'c').consume("b"), Some(1));
    assert_eq!(ClassItem::Range('a', 'c').consume("d"), None);
    assert_eq!(ClassItem::Range('c', 'a').consume("b"), None);
    assert_eq!(ClassItem::Range('\u{e0}', '\u{ff}').consume("\u{e9}"), Some(2));
}

#[test]
fn lowercase_class() {
    let lower = Class::new(false, vec![ClassItem::Range('a', 'z')]);
    for c in 'a'..='z' {
        assert_eq!(lower.consume(&c.to_string()), Some(1));
    }
    assert_eq!(lower.consume("A"), None);
    assert_eq!(lower.consume("0"), None);
    assert_eq!(lower.consume(""), None);
}

#[test]
fn denied_lowercase_class() {
    let other = Class::new(true, vec![ClassItem::Range('a', 'z')]);
    for c in 'a'..='z' {
        assert_eq!(other.consume(&c.to_string()), None);
    }
    assert_eq!(other.consume("A"), Some(1));
    assert_eq!(other.consume("0z"), Some(1));
    assert_eq!(other.consume("\u{1F600}"), Some(4));
    assert_eq!(other.consume(""), Some(0));
}

#[test]
fn empty_classes() {
    let nothing = Class::new(false, vec![]);
    let anything = Class::new(true, vec![]);
    assert_eq!(nothing.consume("a"), None);
    assert_eq!(nothing.consume(""), None);
    assert_eq!(anything.consume("a"), Some(1));
    assert_eq!(anything.consume("\u{e9}"), Some(2));
    assert_eq!(anything.consume(""), Some(0));
}

#[test]
fn quantifier_counts_repetitions() {
    let input = "aaaaaaaa";
    for (min, max) in [(0usize, 0usize), (0, 1), (2, 2), (2, 5), (3, usize::MAX), (0, 3)] {
        let q = quant(min, max, lit("a"));
        for k in 0..=input.len() {
            let expected = if k < min { None } else { Some(k.min(max)) };
            assert_eq!(q.consume(&input[..k]), expected, "{{{},{}}} on {}", min, max, k);
            assert_eq!(q.consume(&input[..k]) == Some(k), min <= k && k <= max);
        }
    }
}

#[test]
fn quantifier_match_is_a_multiple_of_the_inner_width() {
    let q = quant(1, 3, lit("\u{e9}x"));
    assert_eq!(q.consume("\u{e9}x\u{e9}x\u{e9}"), Some(6));
    assert_eq!(q.consume("\u{e9}x\u{e9}x\u{e9}x\u{e9}x"), Some(9));
    assert_eq!(q.consume("x"), None);
}

#[test]
fn quantifier_is_greedy_and_never_gives_back() {
    let group = Pattern::Group(vec![quant(0, usize::MAX, lit("a")), lit("ab")]);
    assert_eq!(group.consume("aaab"), None);
    let group = Pattern::Group(vec![quant(0, 2, lit("a")), lit("ab")]);
    assert_eq!(group.consume("aaab"), Some(4));
}

#[test]
fn quantifier_over_an_empty_match_ends() {
    let any = class(true, vec![]);
    assert_eq!(quant(0, usize::MAX, any).consume("ab"), Some(2));
    assert_eq!(quant(5, usize::MAX, class(true, vec![])).consume("ab"), Some(2));
    assert_eq!(quant(3, 4, lit("")).consume("ab"), Some(0));
}

#[test]
fn group_matches_in_sequence() {
    let group = [lit("ab"), class(false, vec![ClassItem::Range('0', '9')]), lit("\u{e9}")];
    assert_eq!(group.consume("ab7\u{e9}!"), Some(5));
    assert_eq!(group.consume("ab7e"), None);
    assert_eq!(group.consume("abx"), None);
    let empty: [Pattern; 0] = [];
    assert_eq!(empty.consume("abc"), Some(0));
    assert_eq!(Pattern::Group(vec![lit("a"), lit("b")]).consume("abc"), Some(2));
}

#[test]
fn alternation_takes_the_first_that_matches() {
    let or = Pattern::Or(vec![lit("a"), lit("ab"), lit("b")]);
    assert_eq!(or.consume("abc"), Some(1));
    assert_eq!(or.consume("bc"), Some(1));
    assert_eq!(or.consume("c"), None);
    let or = Pattern::Or(vec![lit("ab"), lit("a")]);
    assert_eq!(or.consume("abc"), Some(2));
    assert_eq!(Pattern::Or(vec![]).consume("a"), None);
}

#[test]
fn reference_never_matches() {
    assert_eq!(Pattern::Reference(0, None).consume("abc"), None);
    assert_eq!(Pattern::Reference(0, Some(1)).consume(""), None);
}

#[test]
fn quantifier_constructors() {
    assert_eq!(Quantifier::new(lit("a"), 2, 5), Quantifier { min: 2, max: 5, what: Boxed::new(lit("a")) });
    assert_eq!(Quantifier::optional(lit("a")).consume("aa"), Some(1));
    assert_eq!(Quantifier::at_least(lit("a"), 2).consume("aaaa"), Some(4));
    assert_eq!(Quantifier::at_least(lit("a"), 2).consume("a"), None);
    assert_eq!(Quantifier::at_most(lit("a"), 2).consume("aaaa"), Some(2));
    assert_eq!(Quantifier::exactly(lit("a"), 2).consume("aaaa"), Some(2));
    assert_eq!(Quantifier::exactly(lit("a"), 2).consume("a"), None);
}
