use std::borrow::Cow;

use advent::util::char::{FromChar, StyledChar, ToStyledChar};
use advent::util::min_max;
use advent::util::output::{contains_line_break, Output};
use advent::util::parse::{
    parse_digits, parse_signed_chars, parse_u32, parse_u64, parse_unsigned_chars, read_digits, to_digit,
};
use advent::util::slice::{
    check_disjoint, check_multi_index, check_multi_index_mut, multi_index, multi_index_mut, MultiIndexError,
    MultiIndexMutError, SliceExt,
};
use advent::util::style::{Color, Style, StyleDiff, StyleTracker, ToStyled};
use advent::util::text::{
    copy_range, find_char, find_last_pair, find_pair, from_chars, push_decimal, push_signed_decimal, push_text,
    same_text, split_chars, split_lines, split_pairs, split_words, to_chars, trimmed,
};
use advent::util::vecset::SortedVecSet;
use advent::util::write::{SliceWriter, WriteError};

fn chars(s: &str) -> Vec<char> {
    s.chars().collect()
}

fn strings(parts: Vec<Vec<char>>) -> Vec<String> {
    parts.iter().map(|part| part.iter().collect()).collect()
}

#[test]
fn vecset_keeps_order_and_no_duplicates() {
    let mut set = SortedVecSet::with_capacity(4);
    assert!(set.insert(5));
    assert!(set.insert(1));
    assert!(set.insert(3));
    assert!(!set.insert(3));
    assert_eq!(set.as_slice(), &[1, 3, 5]);
    assert!(set.contains(&3));
    assert!(!set.contains(&4));
    assert!(set.remove(&1));
    assert!(!set.remove(&1));
    assert_eq!(set.as_ref(), &[3, 5]);
    assert_eq!(set.into_vec(), vec![3, 5]);
    let empty: SortedVecSet<u8> = SortedVecSet::new();
    assert!(empty.as_slice().is_empty());
    assert!(SortedVecSet::<u8>::default().as_slice().is_empty());
}

#[test]
fn vecset_orders_any_ordered_type() {
    let mut set = SortedVecSet::new();
    for word in ["pear", "apple", "fig", "apple"] {
        set.insert(word.to_string());
    }
    assert_eq!(set.as_slice(), &["apple".to_string(), "fig".to_string(), "pear".to_string()]);
}

#[test]
fn multi_index_checks_bounds() {
    assert_eq!(check_multi_index(3, &[0, 2, 1]), None);
    assert!(matches!(check_multi_index(3, &[0, 7, 9]), Some(MultiIndexError::OutOfBounds(7))));
    assert_eq!(check_multi_index(0, &[]), None);
    assert!(matches!(check_multi_index_mut(2, &[0, 1, 0]), Some(MultiIndexMutError::OutOfBounds(2))));
    assert!(check_multi_index_mut(3, &[9, 9]).is_none());
    let data = vec![10, 20, 30];
    assert_eq!(multi_index(&data, [2, 0]).ok(), Some([&30, &10]));
    assert_eq!(data.multi_index([1, 1]).ok(), Some([&20, &20]));
    assert!(matches!(data[..].multi_index([1, 3]), Err(MultiIndexError::OutOfBounds(3))));
    assert_eq!(MultiIndexError::OutOfBounds(3).message(), "index out of bounds");
    assert_eq!(MultiIndexMutError::Alias(1).message(), "aliased index");
    assert_eq!(MultiIndexMutError::OutOfBounds(1).message(), "index out of bounds");
}

#[test]
fn multi_index_mut_hands_out_distinct_elements() {
    let mut data = vec![1, 2, 3, 4];
    match data.multi_index_mut([3, 0]) {
        Ok([last, first]) => {
            *last += 10;
            *first += 100;
        }
        Err(_) => panic!("indices are in bounds and differ"),
    }
    assert_eq!(data, vec![101, 2, 3, 14]);
    assert!(matches!(multi_index_mut(&mut data[..], [1, 1]), Err(MultiIndexMutError::Alias(1))));
    assert!(matches!(data.multi_index_mut([0, 9]), Err(MultiIndexMutError::OutOfBounds(9))));
    assert!(matches!(data.multi_index_mut([0, 1, 2, 3, 0]), Err(MultiIndexMutError::OutOfBounds(4))));
    assert!(matches!(check_disjoint(3, &[2, 0, 2]), Some(MultiIndexMutError::Alias(2))));
    assert!(check_disjoint(3, &[2, 0, 1]).is_none());
}

#[test]
fn slice_writer_writes_until_full() {
    let mut buffer = [0u8; 8];
    let mut writer = SliceWriter::new(&mut buffer);
    assert!(writer.is_empty());
    assert_eq!(writer.capacity(), 8);
    assert_eq!(writer.write_str("héllo"), Ok(()));
    assert_eq!(writer.len(), 6);
    assert_eq!(writer.remaining(), 2);
    assert_eq!(writer.write_str("abc"), Err(WriteError));
    assert_eq!(writer.len(), 6);
    assert_eq!(writer.write_str("ab"), Ok(()));
    assert!(!writer.is_empty());
    assert_eq!(writer.into_str(), "hélloab");
    let mut none = [0u8; 0];
    assert_eq!(SliceWriter::new(&mut none).into_str(), "");
}

#[test]
fn lines_and_words() {
    assert_eq!(strings(split_lines(&chars("a\r\nb\n\nc\r"))), vec!["a", "b", "", "c\r"]);
    assert_eq!(strings(split_lines(&chars("one\n"))), vec!["one"]);
    assert!(split_lines(&chars("")).is_empty());
    assert_eq!(strings(split_lines(&chars("\n"))), vec![""]);
    assert_eq!(strings(split_words(&chars("  a bc\t d  "))), vec!["a", "bc", "d"]);
    assert!(split_words(&chars(" \n ")).is_empty());
    assert_eq!(strings(split_chars(&chars("a,,b"), ',')), vec!["a", "", "b"]);
    assert_eq!(strings(split_chars(&chars(""), ',')), vec![""]);
    assert_eq!(strings(split_pairs(&chars("a\n\n\nb\n\n"), '\n', '\n')), vec!["a", "\nb", ""]);
    assert_eq!(trimmed(&chars(" \t x y \n")), chars("x y"));
    assert_eq!(trimmed(&chars("   ")), chars(""));
}

#[test]
fn searching_text() {
    let text = chars("ab: cd: e");
    assert_eq!(find_char(&text, ':'), 2);
    assert_eq!(find_char(&text, '?'), 9);
    assert_eq!(find_pair(&text, 0, ':', ' '), 2);
    assert_eq!(find_pair(&text, 3, ':', ' '), 6);
    assert_eq!(find_pair(&text, 7, ':', ' '), 9);
    assert_eq!(find_last_pair(&text, ':', ' '), Some(6));
    assert_eq!(find_last_pair(&text, 'x', 'y'), None);
    assert_eq!(copy_range(&text, 4, 6), chars("cd"));
    assert_eq!(to_chars("héllo"), chars("héllo"));
    assert_eq!(from_chars(&chars("héllo")), "héllo");
    assert!(same_text("all", "all"));
    assert!(!same_text("all", "al"));
}

#[test]
fn decimal_numerals() {
    let mut s = String::from("n=");
    push_decimal(&mut s, 0);
    push_text(&mut s, ",");
    push_decimal(&mut s, u128::MAX);
    push_text(&mut s, ",");
    push_signed_decimal(&mut s, i128::MIN);
    push_text(&mut s, ",");
    push_signed_decimal(&mut s, 42);
    assert_eq!(
        s,
        "n=0,340282366920938463463374607431768211455,-170141183460469231731687303715884105728,42"
    );
}

#[test]
fn reading_numbers() {
    assert_eq!(parse_u32("4294967295"), Some(u32::MAX));
    assert_eq!(parse_u32("4294967296"), None);
    assert_eq!(parse_u32("+7"), Some(7));
    assert_eq!(parse_u32("007"), Some(7));
    assert_eq!(parse_u32(""), None);
    assert_eq!(parse_u32("+"), None);
    assert_eq!(parse_u32("-1"), None);
    assert_eq!(parse_u32("1 "), None);
    assert_eq!(parse_u64("18446744073709551615"), Some(u64::MAX));
    assert_eq!(parse_u64("18446744073709551616"), None);
    assert_eq!(parse_unsigned_chars(&chars("12"), 11), None);
    assert_eq!(parse_signed_chars(&chars("-9223372036854775808"), i64::MIN, i64::MAX), Some(i64::MIN));
    assert_eq!(parse_signed_chars(&chars("9223372036854775808"), i64::MIN, i64::MAX), None);
    assert_eq!(parse_signed_chars(&chars("-"), i64::MIN, i64::MAX), None);
    assert_eq!(parse_signed_chars(&chars("+12"), -5, 12), Some(12));
    assert_eq!(parse_digits(&chars("x123"), 1, 200), Some(123));
    assert_eq!(read_digits(&chars("12ab"), 0, 100), Some((12, 2)));
    assert_eq!(read_digits(&chars("ab"), 0, 100), None);
    assert_eq!(read_digits(&chars("123"), 0, 100), None);
    assert_eq!(to_digit('7'), Some(7));
    assert_eq!(to_digit('x'), None);
}

#[test]
fn outputs_render() {
    assert_eq!(255u8.render(), "255");
    assert_eq!((-128i8).render(), "-128");
    assert_eq!(u128::MAX.render(), "340282366920938463463374607431768211455");
    assert_eq!(i64::MIN.render(), "-9223372036854775808");
    assert_eq!(0usize.render(), "0");
    assert!(!7u64.is_multiline());
    assert_eq!("plain".render(), "plain");
    assert!(!"plain".is_multiline());
    assert!("two\nlines".is_multiline());
    assert!(String::from("carriage\rreturn").is_multiline());
    assert!(!String::new().is_multiline());
    let cow: Cow<'_, str> = Cow::Borrowed("a\nb");
    assert!(cow.is_multiline());
    assert_eq!(cow.render(), "a\nb");
    assert_eq!((&12u16).render(), "12");
    assert!(contains_line_break("x\r"));
}

#[test]
fn big_numbers_render_on_one_line() {
    let big = num::BigInt::from(-12) * num::BigInt::from(10).pow(30);
    assert_eq!(big.render(), "-12000000000000000000000000000000");
    assert!(!big.is_multiline());
    assert_eq!(num::BigUint::from(7u8).render(), "7");
    assert_eq!(num::rational::Rational32::new(6, 4).render(), "3/2");
    assert_eq!(num::rational::Rational64::new(-8, 2).render(), "-4");
    let ratio = num::rational::BigRational::new(num::BigInt::from(1), num::BigInt::from(3));
    assert_eq!(ratio.render(), "1/3");
    assert!(!ratio.is_multiline());
}

#[test]
fn styled_values() {
    let message = String::from("boom");
    assert_eq!(message.with_fg(Color::Red).render(), "\x1b[31mboom\x1b[0m");
    assert_eq!(message.with_bg(Color::BrightBlue).render(), "\x1b[104mboom\x1b[0m");
    assert_eq!(message.wrap().render(), "boom");
    assert_eq!(
        message.with_fg(Color::Rgb { r: 1, g: 20, b: 255 }).with_bg(Color::Black).render(),
        "\x1b[38;5;1;20;255;40mboom\x1b[0m"
    );
}

#[test]
fn style_codes() {
    let clear = Style::clear();
    assert_eq!(Style::default(), clear);
    assert_eq!(Color::default(), Color::Default);
    assert_eq!(Style::new(Color::White, Color::BrightBlack).diff(&clear).render(), "\x1b[37;100m");
    assert_eq!(Style::bg(Color::Rgb { r: 0, g: 0, b: 9 }).diff(&clear).render(), "\x1b[48;5;0;0;9m");
    assert_eq!(clear.diff(&Style::fg(Color::Cyan)), StyleDiff::Clear);
    assert_eq!(clear.diff(&Style::fg(Color::Cyan)).render(), "\x1b[0m");
    assert_eq!(clear.diff(&clear).render(), "");
    let red_on_blue = Style::fg(Color::Red).with_bg(Color::Blue);
    assert_eq!(red_on_blue.with_fg(Color::Green).diff(&red_on_blue), StyleDiff::Foreground(Color::Green));
    assert_eq!(red_on_blue.with_bg(Color::Default).diff(&red_on_blue), StyleDiff::Background(Color::Default));
    assert_eq!(StyleDiff::Background(Color::Default).render(), "\x1b[49m");
    assert_eq!(StyleDiff::Foreground(Color::Default).render(), "\x1b[39m");
    assert_eq!(StyleDiff::new(None, None), StyleDiff::Noop);
    assert_eq!(StyleDiff::new(Some(Color::Red), Some(Color::Blue)), StyleDiff::Both { fg: Color::Red, bg: Color::Blue });
    let mut codes = String::new();
    StyleDiff::Both { fg: Color::BrightWhite, bg: Color::Yellow }.write(&mut codes);
    assert_eq!(codes, "97;43");
}

#[test]
fn tracker_can_be_disabled() {
    let mut off = StyleTracker::new(false);
    assert_eq!(off.style(Style::fg(Color::Red)), StyleDiff::Noop);
    assert_eq!(off.clear(), StyleDiff::Noop);
    let mut on = StyleTracker::default();
    assert_eq!(on.clear(), StyleDiff::Noop);
    assert_eq!(on.style(Style::fg(Color::Red)), StyleDiff::Foreground(Color::Red));
    assert_eq!(on.clear(), StyleDiff::Clear);
    assert_eq!(on.clear(), StyleDiff::Noop);
}

#[test]
fn characters_as_elements() {
    assert_eq!(StyledChar::from('x'), StyledChar { ch: 'x', style: Style::clear() });
    assert_eq!('y'.to_styled_char().ch, 'y');
    let styled = StyledChar { ch: 'z', style: Style::fg(Color::Red) };
    assert_eq!(styled.to_styled_char(), styled);
    assert_eq!(char::from_char('q').ok(), Some('q'));
}

#[test]
fn min_max_orders_two_values() {
    assert_eq!(min_max(3, 1), (1, 3));
    assert_eq!(min_max(1, 3), (1, 3));
    assert_eq!(min_max("b", "a"), ("a", "b"));
    assert_eq!(min_max(2, 2), (2, 2));
}
