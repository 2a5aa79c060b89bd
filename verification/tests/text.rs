use clireview::header::parse_header;
use clireview::lines::{line_spans, render};
use clireview::number::{parse_number, push_decimal};
use clireview::text::{
    chars_of, count_before, find, position, skip_leading, skip_trailing, string_of,
};

fn chars(s: &str) -> Vec<char> {
    s.chars().collect()
}

#[test]
fn characters_and_strings_go_both_ways() {
    assert_eq!(chars_of("a\u{e9}\u{1f600}"), vec!['a', '\u{e9}', '\u{1f600}']);
    assert_eq!(chars_of(""), Vec::<char>::new());
    assert_eq!(string_of(&['a', '\u{e9}', '\u{1f600}']), "a\u{e9}\u{1f600}");
    assert_eq!(string_of(&[]), "");
}

#[test]
fn characters_are_dropped_at_one_end_only() {
    assert_eq!(skip_leading(&chars("@@ -1 @@"), '@'), &chars(" -1 @@")[..]);
    assert_eq!(skip_leading(&chars("abc"), '@'), &chars("abc")[..]);
    assert_eq!(skip_leading(&chars("@@@"), '@'), &chars("")[..]);
    assert_eq!(skip_trailing(&chars("@@ -1 @@"), '@'), &chars("@@ -1 ")[..]);
    assert_eq!(skip_trailing(&chars("@@@"), '@'), &chars("")[..]);
    assert_eq!(skip_trailing(&chars(""), '@'), &chars("")[..]);
}

#[test]
fn first_place_of_a_character_is_found() {
    assert_eq!(position(&chars("a-b-c"), '-'), Some(1));
    assert_eq!(position(&chars("-"), '-'), Some(0));
    assert_eq!(position(&chars("abc"), '-'), None);
    assert_eq!(position(&chars(""), '-'), None);
}

#[test]
fn first_place_of_a_text_is_found() {
    assert_eq!(find(&chars("abcabc"), &chars("bc")), Some(1));
    assert_eq!(find(&chars("abcabc"), &chars("abcabc")), Some(0));
    assert_eq!(find(&chars("aab"), &chars("ab")), Some(1));
    assert_eq!(find(&chars("abc"), &chars("")), Some(0));
    assert_eq!(find(&chars(""), &chars("")), Some(0));
    assert_eq!(find(&chars("abc"), &chars("abcd")), None);
    assert_eq!(find(&chars("abc"), &chars("cb")), None);
    assert_eq!(find(&chars("xxabc"), &chars("abc")), Some(2));
}

#[test]
fn separators_are_counted_up_to_a_place() {
    let text = chars("a\nb\n\nc");
    assert_eq!(count_before(&text, 0, '\n'), 0);
    assert_eq!(count_before(&text, 1, '\n'), 0);
    assert_eq!(count_before(&text, 2, '\n'), 1);
    assert_eq!(count_before(&text, 5, '\n'), 3);
    assert_eq!(count_before(&text, 6, '\n'), 3);
}

#[test]
fn numbers_are_read_in_base_ten() {
    assert_eq!(parse_number(&chars("0")), Some(0));
    assert_eq!(parse_number(&chars("007")), Some(7));
    assert_eq!(parse_number(&chars("+15")), Some(15));
    assert_eq!(parse_number(&chars("4294967295")), Some(4294967295));
    assert_eq!(parse_number(&chars("4294967296")), None);
    assert_eq!(parse_number(&chars("99999999999999999999999")), None);
    assert_eq!(parse_number(&chars("")), None);
    assert_eq!(parse_number(&chars("+")), None);
    assert_eq!(parse_number(&chars("-1")), None);
    assert_eq!(parse_number(&chars("++1")), None);
    assert_eq!(parse_number(&chars("1 ")), None);
    assert_eq!(parse_number(&chars("1a")), None);
    assert_eq!(parse_number(&chars("\u{661}")), None);
}

#[test]
fn numbers_are_written_in_base_ten() {
    for n in [0u32, 7, 10, 99, 100, 1307, 4294967295] {
        let mut out = String::from("n=");
        push_decimal(&mut out, n);
        assert_eq!(out, format!("n={}", n));
        assert_eq!(parse_number(&chars(&out[2..])), Some(n));
    }
}

#[test]
fn text_is_split_at_its_separators() {
    let spans = |s: &str| line_spans(&chars(s));
    assert_eq!(spans(""), vec![]);
    assert_eq!(spans("a"), vec![(0, 1)]);
    assert_eq!(spans("a\n"), vec![(0, 1)]);
    assert_eq!(spans("\n"), vec![(0, 0)]);
    assert_eq!(spans("ab\ncd"), vec![(0, 2), (3, 5)]);
    assert_eq!(spans("ab\n\ncd\n"), vec![(0, 2), (3, 3), (4, 6)]);
    assert_eq!(spans("a\n\n"), vec![(0, 1), (2, 2)]);
}

#[test]
fn lines_are_joined_with_or_without_the_last_separator() {
    let lines: Vec<String> = ["a", "b", "", "c"].iter().map(|s| s.to_string()).collect();
    assert_eq!(render(&lines, 0, 4, true), "a\nb\n\nc\n");
    assert_eq!(render(&lines, 0, 4, false), "a\nb\n\nc");
    assert_eq!(render(&lines, 1, 3, true), "b\n\n");
    assert_eq!(render(&lines, 1, 3, false), "b\n");
    assert_eq!(render(&lines, 2, 2, true), "");
    assert_eq!(render(&lines, 2, 2, false), "");
}

#[test]
fn header_gives_both_starting_lines() {
    let header = |s: &str| parse_header(&chars(s));
    assert_eq!(header("@@ -1,4 +2,5 @@"), Some((1, 2)));
    assert_eq!(header("@@ -10 +20 @@"), Some((10, 20)));
    assert_eq!(header("@@ -10 +20"), Some((10, 20)));
    assert_eq!(header("@@ -1,4 +2,5 @@ fn f(a: u8, b: u8) {"), Some((1, 2)));
    assert_eq!(header("@@@ -1,4 +2,5 @@@"), Some((1, 2)));
    assert_eq!(header("@@ -+1,4 +2,5 @@"), Some((1, 1)));
    assert_eq!(header("@@ -1,4 +  2,5 @@"), Some((1, 2)));
    assert_eq!(header("@@ -1,4+2,5 @@"), Some((1, 2)));
    assert_eq!(header("@@ -1,4 2,5 @@"), None);
    assert_eq!(header("@@ 1,4 +2,5 @@"), None);
    assert_eq!(header("@@ +2,5 -1,4 @@"), None);
    assert_eq!(header("@@ -1,4 +2,5@@"), Some((1, 2)));
    assert_eq!(header("@@-1,4+2,5@@"), None);
    assert_eq!(header("@@ - 1 +2 @@"), None);
    assert_eq!(header("@@"), None);
    assert_eq!(header(""), None);
}
