use clr1::digits::{is_ascii_digit, nibble, parse_decimal, parse_hex};
use clr1::lex::iter::Iter;
use clr1::ser::{Layout, Options};
use clr1::text::{byte_len, first_char, len_utf8, skip_first, starts_with, str_eq};

#[test]
fn first_item_of_a_list_has_no_comma() {
    let mut layout = Layout::new(2);
    assert!(layout.usable());
    assert!(!layout.peek());
    assert_eq!(layout.begin_item(true), "\n        ");
    assert!(layout.peek());
    assert_eq!(layout.begin_item(true), ",\n        ");
    assert_eq!(layout.begin_item(false), ", ");
}

#[test]
fn nested_lists_indent_one_step_more() {
    let mut layout = Options { initial_indent: 0 }.to_layout();
    assert_eq!(layout.do_indent(), "");
    assert_eq!(layout.begin_item(false), " ");
    layout.indent();
    assert!(!layout.peek());
    assert_eq!(layout.do_indent(), "    ");
    assert_eq!(layout.begin_item(true), "\n    ");
    layout.indent();
    assert_eq!(layout.outdent(), "");
    assert_eq!(layout.outdent(), "\n");
    assert!(layout.peek());
}

#[test]
fn closing_the_outermost_list_opens_it_anew() {
    let mut layout = Layout::new(3);
    assert_eq!(layout.begin_item(false), " ");
    assert_eq!(layout.outdent(), "\n        ");
    assert!(!layout.peek());
    assert_eq!(layout.outdent(), "");
    let mut flat = Layout::new(0);
    assert_eq!(flat.begin_item(true), "\n");
    assert_eq!(flat.outdent(), "\n");
}

#[test]
fn default_options_do_not_indent() {
    assert_eq!(Options::default(), Options { initial_indent: 0 });
    assert!(!Layout::new(usize::MAX).usable());
}

#[test]
fn numbers_from_digits() {
    assert_eq!(parse_decimal("0"), Some(0));
    assert_eq!(parse_decimal("0042"), Some(42));
    assert_eq!(parse_decimal(""), Some(0));
    assert_eq!(parse_decimal(&usize::MAX.to_string()), Some(usize::MAX));
    assert_eq!(parse_decimal(&format!("{}0", usize::MAX)), None);
    assert_eq!(parse_decimal("1\r2"), Some(12));
    assert_eq!(parse_hex("1F600"), Some(0x1F600));
    assert_eq!(parse_hex("ffffFFFF"), Some(u32::MAX));
    assert_eq!(parse_hex("100000000"), None);
    assert_eq!(nibble('a'), Some(10));
    assert_eq!(nibble('F'), Some(15));
    assert_eq!(nibble('7'), Some(7));
    assert_eq!(nibble('g'), None);
    assert!(is_ascii_digit('0') && is_ascii_digit('9') && !is_ascii_digit('a'));
}

#[test]
fn text_is_measured_in_bytes() {
    assert_eq!(len_utf8('a'), 1);
    assert_eq!(len_utf8('\u{e9}'), 2);
    assert_eq!(len_utf8('\u{20ac}'), 3);
    assert_eq!(len_utf8('\u{1F600}'), 4);
    assert_eq!(byte_len("\u{e9}t\u{e9}"), 5);
    assert_eq!(first_char("\u{e9}t"), Some('\u{e9}'));
    assert_eq!(first_char(""), None);
    assert_eq!(skip_first("\u{e9}t"), "t");
    assert!(starts_with("abc", "ab") && starts_with("abc", "") && !starts_with("ab", "abc"));
    assert!(!starts_with("abc", "b"));
    assert!(str_eq("ab", "ab") && !str_eq("ab", "ac") && !str_eq("ab", "abc"));
}

#[test]
fn byte_cursor_counts_bytes() {
    let mut iter = Iter::new("a\u{e9}\r");
    assert_eq!((iter.offset(), iter.peek(), iter.as_str()), (0, Some('a'), "a\u{e9}\r"));
    assert_eq!(iter.next(), Some('a'));
    assert_eq!(iter.next(), Some('\u{e9}'));
    assert_eq!((iter.offset(), iter.as_str()), (3, "\r"));
    assert_eq!(iter.next(), Some('\r'));
    assert_eq!((iter.next(), iter.peek(), iter.offset()), (None, None, 4));
}
