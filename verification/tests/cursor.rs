use clr1::iter::{peek_second, read_while, skip_while, Chars, Iter, Offset, Pred};
use clr1::pattern::parse::{is_whitespace, CharSet};
use clr1::store::Store;

#[test]
fn offset_holds_line_and_column() {
    let at = Offset::new(3, 9);
    assert_eq!((at.line(), at.column()), (3, 9));
    assert_eq!(at, Offset(3, 9));
}

#[test]
fn cursor_yields_characters_with_positions() {
    let mut iter = Iter::new("ab\ncd");
    assert_eq!(iter.peek(), Some((Offset::new(0, 0), 'a')));
    assert_eq!(iter.as_str(), "ab\ncd");
    assert_eq!(iter.next(), Some((Offset::new(0, 0), 'a')));
    assert_eq!(iter.next(), Some((Offset::new(0, 1), 'b')));
    assert_eq!(iter.offset(), Offset::new(0, 2));
    assert_eq!(iter.next(), Some((Offset::new(0, 2), '\n')));
    assert_eq!(iter.as_str(), "cd");
    assert_eq!(iter.next(), Some((Offset::new(1, 0), 'c')));
    assert_eq!(iter.next(), Some((Offset::new(1, 1), 'd')));
    assert_eq!(iter.peek(), None);
    assert_eq!(iter.next(), None);
    assert_eq!(iter.offset(), Offset::new(1, 2));
    assert_eq!(iter.as_str(), "");
}

#[test]
fn carriage_returns_are_passed_over() {
    let mut iter = Iter::from("\ra\r\r\n\u{e9}\r");
    assert_eq!(iter.as_str(), "a\r\r\n\u{e9}\r");
    assert_eq!(iter.next(), Some((Offset::new(0, 0), 'a')));
    assert_eq!(iter.peek(), Some((Offset::new(0, 1), '\n')));
    assert_eq!(iter.next(), Some((Offset::new(0, 1), '\n')));
    assert_eq!(iter.next(), Some((Offset::new(1, 0), '\u{e9}')));
    assert_eq!(iter.peek(), None);
    assert_eq!(iter.offset(), Offset::new(1, 1));
}

#[test]
fn skip_while_passes_the_whole_run() {
    let mut iter = Iter::new(" \t\x0B\r\n x ");
    skip_while(&mut iter, CharSet::Whitespace);
    assert_eq!(iter.peek(), Some((Offset::new(1, 1), 'x')));
    skip_while(&mut iter, CharSet::Whitespace);
    assert_eq!(iter.peek(), Some((Offset::new(1, 1), 'x')));
    skip_while(&mut iter, |ch: char| ch != '!');
    assert_eq!(iter.peek(), None);
}

#[test]
fn read_while_gives_the_run_and_its_ends() {
    let mut iter = Iter::new("  1234x");
    assert_eq!(read_while(&mut iter, CharSet::Digit), None);
    assert_eq!(iter.as_str(), "  1234x");
    skip_while(&mut iter, ' ');
    assert_eq!(
        read_while(&mut iter, |ch: char| ch.is_ascii_digit()),
        Some((Offset::new(0, 2), Offset::new(0, 5), "1234"))
    );
    assert_eq!(iter.as_str(), "x");
    assert_eq!(
        read_while(&mut iter, CharSet::Solid),
        Some((Offset::new(0, 6), Offset::new(0, 6), "x"))
    );
    assert_eq!(read_while(&mut iter, CharSet::Solid), None);
}

#[test]
fn read_while_spans_the_source_text() {
    let mut iter = Iter::new("n\u{e4}m\r\ne: x");
    assert_eq!(
        read_while(&mut iter, CharSet::Line),
        Some((Offset::new(0, 0), Offset::new(0, 2), "n\u{e4}m"))
    );
    assert_eq!(iter.as_str(), "\ne: x");
    let mut iter = Iter::new("ab\rcd e");
    assert_eq!(
        read_while(&mut iter, CharSet::Head),
        Some((Offset::new(0, 0), Offset::new(0, 3), "ab\rcd"))
    );
}

#[test]
fn sets_of_characters() {
    assert!(is_whitespace(' ') && is_whitespace('\t') && is_whitespace('\x0B'));
    assert!(is_whitespace('\n') && is_whitespace('\r') && is_whitespace('\x0C'));
    assert!(!is_whitespace('a') && !is_whitespace('\u{a0}') && !is_whitespace('\x08'));
    assert!(CharSet::HexDigit.contains('f') && CharSet::HexDigit.contains('A'));
    assert!(!CharSet::HexDigit.contains('g'));
    assert!(CharSet::Word.contains('_') && CharSet::Word.contains('\u{e9}'));
    assert!(!CharSet::Word.contains('-'));
    assert!(CharSet::Head.contains('@') && !CharSet::Head.contains(':'));
    assert!('x'.contains('x') && !'x'.contains('y'));
    let set: &[char] = &['a', 'b'];
    assert!(Pred::contains(set, 'b') && !Pred::contains(set, 'c'));
}

#[test]
fn store_gives_each_name_one_id() {
    let mut store = Store::new();
    assert_eq!(store.len(), 0);
    assert_eq!(store.add("Digit"), 0);
    assert_eq!(store.add("Hex"), 1);
    assert_eq!(store.add("Digit"), 0);
    assert_eq!(store.add(""), 2);
    assert_eq!(store.add("Hex"), 1);
    assert_eq!(store.len(), 3);
    assert_eq!(store.get(1), Some("Hex"));
    assert_eq!(store.get(3), None);
}

#[test]
fn second_character_is_seen_without_reading() {
    let mut iter = Iter::new("a\r\rb");
    assert_eq!(peek_second(&iter), Some('b'));
    assert_eq!(iter.peek(), Some((Offset::new(0, 0), 'a')));
    iter.next();
    assert_eq!(peek_second(&iter), None);
    iter.next();
    assert_eq!(peek_second(&iter), None);
}
