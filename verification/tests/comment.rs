use clireview::comment::{LineRange, ReviewComment, SubjectType, User};
use clireview::diff::CommentSide;

fn comment(hunk: &str, original_line: u32, original_start_line: Option<u32>) -> ReviewComment {
    ReviewComment {
        id: 1,
        in_reply_to_id: None,
        body: "please rename".to_string(),
        commit_id: "c0ffee".to_string(),
        original_commit_id: "c0ffee".to_string(),
        line: None,
        original_line,
        start_line: None,
        original_start_line,
        user: User { login: "alice".to_string() },
        diff_hunk: hunk.to_string(),
        path: "src/lib.rs".to_string(),
        subject_type: Some("line".to_string()),
        start_side: None,
    }
}

const HUNK: &str = "@@ -10,3 +10,3 @@\n fn f() {\n-    old();\n+    new();\n }";

#[test]
fn comment_moves_to_where_the_text_of_its_hunk_stands() {
    let c = comment(HUNK, 11, None);
    let doc = "// a\n// b\n// c\nfn f() {\n    new();\n}\n";
    assert_eq!(c.line_range(doc), LineRange { beg: 3, end: 4 });
}

#[test]
fn moved_comment_keeps_its_length() {
    let c = comment(HUNK, 12, Some(10));
    let doc = "x\nfn f() {\n    new();\n}\ny\n";
    assert_eq!(c.line_range(doc), LineRange { beg: 1, end: 4 });
    let far = format!("{}fn f() {{\n    new();\n}}", "pad\n".repeat(500));
    assert_eq!(c.line_range(&far), LineRange { beg: 500, end: 503 });
}

#[test]
fn comment_stands_at_the_first_of_several_places() {
    let c = comment("@@ -1 +1 @@\n+x", 7, None);
    assert_eq!(c.line_range("a\nb x\nx\n"), LineRange { beg: 1, end: 2 });
}

#[test]
fn text_at_the_start_of_the_document_is_line_zero() {
    let c = comment(HUNK, 40, Some(38));
    assert_eq!(c.line_range("fn f() {\n    new();\n}"), LineRange { beg: 0, end: 3 });
}

#[test]
fn comment_stays_where_it_says_if_the_text_is_not_found() {
    let c = comment(HUNK, 11, None);
    assert_eq!(c.line_range("fn g() {}\n"), LineRange { beg: 10, end: 11 });
    let c = comment(HUNK, 12, Some(10));
    assert_eq!(c.line_range(""), LineRange { beg: 9, end: 12 });
}

#[test]
fn comment_stays_where_it_says_if_the_hunk_has_no_right_text() {
    let c = comment("@@ -4,2 +3,0 @@\n-a\n-b\n", 5, Some(4));
    assert_eq!(c.line_range("a\nb\nc\n"), LineRange { beg: 3, end: 5 });
}

#[test]
fn comment_stays_where_it_says_if_the_hunk_cannot_be_read() {
    let c = comment("no hunk at all", 8, Some(6));
    assert_eq!(c.line_range("no hunk at all"), LineRange { beg: 5, end: 8 });
    let c = comment("@@ -1 +1 @@\n a\n?b", 3, None);
    assert_eq!(c.line_range(" a\n?b"), LineRange { beg: 2, end: 3 });
}

#[test]
fn comment_on_a_file_is_not_searched_for() {
    let mut c = comment(HUNK, 11, Some(10));
    c.subject_type = Some("file".to_string());
    let doc = "// a\n// b\n// c\nfn f() {\n    new();\n}\n";
    assert_eq!(c.line_range(doc), LineRange { beg: 9, end: 11 });
}

#[test]
fn subject_is_the_file_only_where_the_field_says_so() {
    let mut c = comment(HUNK, 1, None);
    assert_eq!(c.get_subject_type(), SubjectType::Line);
    c.subject_type = Some("file".to_string());
    assert_eq!(c.get_subject_type(), SubjectType::File);
    c.subject_type = Some("a file, not a line".to_string());
    assert_eq!(c.get_subject_type(), SubjectType::Line);
    c.subject_type = Some("profile".to_string());
    assert_eq!(c.get_subject_type(), SubjectType::File);
    c.subject_type = Some("other".to_string());
    assert_eq!(c.get_subject_type(), SubjectType::Line);
    c.subject_type = Some(String::new());
    assert_eq!(c.get_subject_type(), SubjectType::Line);
    c.subject_type = None;
    assert_eq!(c.get_subject_type(), SubjectType::Line);
}

#[test]
fn comments_are_made_on_the_left_side() {
    assert_eq!(comment(HUNK, 1, None).commented_side(), CommentSide::LL);
}

#[test]
fn hunk_with_a_last_separator_is_found_with_it_only() {
    let c = comment("@@ -1 +1 @@\n+x\n", 2, None);
    assert_eq!(c.line_range("a\nx"), LineRange { beg: 1, end: 2 });
    assert_eq!(c.line_range("a\nx\n"), LineRange { beg: 1, end: 2 });
    let c = comment("@@ -1 +1 @@\n+xy\n", 9, None);
    assert_eq!(c.line_range("a\nxy"), LineRange { beg: 8, end: 9 });
}

#[test]
fn checked_range_is_the_range_where_there_is_one() {
    let c = comment(HUNK, 12, Some(10));
    let doc = "x\nfn f() {\n    new();\n}\ny\n";
    assert_eq!(c.checked_line_range(doc), Some(LineRange { beg: 1, end: 4 }));
    assert_eq!(c.checked_line_range("nothing"), Some(LineRange { beg: 9, end: 12 }));
}

#[test]
fn comment_that_names_no_lines_has_no_range() {
    assert_eq!(comment(HUNK, 0, None).checked_line_range("x"), None);
    assert_eq!(comment(HUNK, 3, Some(0)).checked_line_range("x"), None);
    assert_eq!(comment(HUNK, 3, Some(4)).checked_line_range("x"), None);
    assert_eq!(
        comment(HUNK, 3, Some(3)).checked_line_range("x"),
        Some(LineRange { beg: 2, end: 3 })
    );
}

#[test]
fn range_beyond_32_bits_is_no_range() {
    let c = comment("@@ -1 +1 @@\n+x", u32::MAX, Some(1));
    assert_eq!(c.checked_line_range("x"), Some(LineRange { beg: 0, end: u32::MAX }));
    assert_eq!(c.checked_line_range("\nx"), None);
    assert_eq!(c.checked_line_range("y"), Some(LineRange { beg: 0, end: u32::MAX }));
}
