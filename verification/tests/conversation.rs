use clireview::comment::{ReviewComment, User};
use clireview::conversation::Conversation;

fn comment(id: u32, in_reply_to_id: Option<u32>, login: &str, body: &str) -> ReviewComment {
    ReviewComment {
        id,
        in_reply_to_id,
        body: body.to_string(),
        commit_id: String::new(),
        original_commit_id: String::new(),
        line: None,
        original_line: 1,
        start_line: None,
        original_start_line: None,
        user: User { login: login.to_string() },
        diff_hunk: String::new(),
        path: String::new(),
        subject_type: None,
        start_side: None,
    }
}

fn review() -> Vec<ReviewComment> {
    vec![
        comment(1, None, "alice", "why?"),
        comment(2, Some(1), "bob", "because"),
        comment(3, None, "carol", "typo"),
        comment(4, Some(1), "alice", "ok"),
        comment(5, Some(9), "dave", "lost"),
    ]
}

#[test]
fn starters_are_the_comments_that_reply_to_nothing() {
    let comments = review();
    let conv = Conversation::from_review_comments(&comments).unwrap();
    assert_eq!(conv.starter(), &vec![0, 2]);
    let ids: Vec<u32> = conv.starter().iter().map(|&i| conv.comments()[i].id).collect();
    assert_eq!(ids, vec![1, 3]);
}

#[test]
fn replies_are_kept_under_the_comment_they_reply_to() {
    let comments = review();
    let conv = Conversation::from_review_comments(&comments).unwrap();
    assert_eq!(conv.replies(1), Some(&vec![1, 3]));
    let to_first: Vec<u32> = conv.replies(1).unwrap().iter().map(|&i| comments[i].id).collect();
    assert_eq!(to_first, vec![2, 4]);
    assert_eq!(conv.replies(3), Some(&vec![]));
    assert_eq!(conv.replies(9), None);
    assert_eq!(conv.replies(2), None);
}

#[test]
fn review_without_comments_has_no_conversation() {
    let comments = Vec::new();
    let conv = Conversation::from_review_comments(&comments).unwrap();
    assert!(conv.starter().is_empty());
    assert!(conv.comments().is_empty());
    assert_eq!(conv.replies(0), None);
}

#[test]
fn starters_with_one_id_share_their_replies() {
    let comments = vec![
        comment(1, None, "alice", "first"),
        comment(1, None, "bob", "second"),
        comment(2, Some(1), "carol", "to both"),
    ];
    let conv = Conversation::from_review_comments(&comments).unwrap();
    assert_eq!(conv.starter(), &vec![0, 1]);
    assert_eq!(conv.replies(1), Some(&vec![2]));
    assert_eq!(conv.serialize(&comments[1]), "bob: second\ncarol: to both");
}

#[test]
fn conversation_is_one_entry_for_each_comment() {
    let comments = review();
    let conv = Conversation::from_review_comments(&comments).unwrap();
    assert_eq!(conv.serialize(&comments[0]), "alice: why?\nbob: because\nalice: ok");
    assert_eq!(conv.serialize(&comments[2]), "carol: typo");
}

#[test]
fn comment_that_starts_nothing_is_an_entry_of_its_own() {
    let comments = review();
    let conv = Conversation::from_review_comments(&comments).unwrap();
    assert_eq!(conv.serialize(&comments[4]), "dave: lost");
}

fn on_file(mut c: ReviewComment, path: &str, hunk: &str, line: u32) -> ReviewComment {
    c.path = path.to_string();
    c.diff_hunk = hunk.to_string();
    c.original_line = line;
    c
}

#[test]
fn transcript_puts_each_conversation_between_two_rules() {
    let comments = vec![
        on_file(comment(10, None, "alice", "why?"), "a.rs", "@@ -1 +1 @@\n+x", 1),
        comment(11, Some(10), "bob", "because"),
        on_file(comment(12, None, "carol", "typo"), "b.rs", "@@ -2 +2 @@\n-y", 2),
    ];
    let conv = Conversation::from_review_comments(&comments).unwrap();
    let plus = format!("|{}|\n", "+".repeat(80));
    let minus = format!("|{}|\n", "-".repeat(80));
    let expected = format!(
        "{plus}a.rs\n@@ -1 +1 @@\n+x\n[10]alice: why?\n[11]bob: because\n{minus}\
         {plus}b.rs\n@@ -2 +2 @@\n-y\n[12]carol: typo\n{minus}"
    );
    assert_eq!(conv.transcript(), expected);
}

#[test]
fn transcript_of_no_conversation_is_empty() {
    let comments = vec![comment(11, Some(10), "bob", "because")];
    let conv = Conversation::from_review_comments(&comments).unwrap();
    assert_eq!(conv.transcript(), "");
}

#[test]
fn rule_is_eighty_wide() {
    assert_eq!(clireview::conversation::NCOL, 80);
}

#[test]
fn diagnostics_are_the_conversations_on_the_file() {
    let comments = vec![
        on_file(comment(1, None, "alice", "why?"), "src/a.rs", "@@ -1 +1 @@\n+let x = 1;", 7),
        comment(2, Some(1), "bob", "because"),
        on_file(comment(3, None, "carol", "typo"), "src/b.rs", "@@ -2 +2 @@\n+let x = 1;", 2),
        on_file(comment(4, None, "dave", "here"), "a.rs", "@@ -2 +2 @@\n+gone", 3),
    ];
    let conv = Conversation::from_review_comments(&comments).unwrap();
    let found = conv
        .diagnostics("file:///home/me/src/a.rs", "fn f() {\n    let x = 1;\n}\n")
        .unwrap();
    assert_eq!(found.len(), 2);
    assert_eq!(found[0].range, clireview::comment::LineRange { beg: 1, end: 2 });
    assert_eq!(found[0].message, "alice: why?\nbob: because");
    assert_eq!(found[1].range, clireview::comment::LineRange { beg: 2, end: 3 });
    assert_eq!(found[1].message, "dave: here");
    assert_eq!(conv.diagnostics("file:///c.rs", "let x = 1;").map(|v| v.len()), Some(0));
}

#[test]
fn diagnostics_need_comments_that_name_lines() {
    let comments = vec![
        on_file(comment(1, None, "alice", "why?"), "a.rs", "@@ -1 +1 @@\n+x", 0),
        on_file(comment(2, None, "bob", "here"), "b.rs", "@@ -1 +1 @@\n+x", 1),
    ];
    let conv = Conversation::from_review_comments(&comments).unwrap();
    assert!(conv.diagnostics("file:///a.rs", "x").is_none());
    assert_eq!(conv.diagnostics("file:///b.rs", "x").map(|v| v.len()), Some(1));
}
