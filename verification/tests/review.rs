use clireview::review::{Args, Error, Review, ReviewInterface};

fn no_args() -> Args {
    Args {
        token: None,
        command: None,
        url: None,
        platform: None,
        owner: None,
        repo: None,
        id: None,
        fname: None,
        local_repo: None,
        comment: None,
        body: None,
        commit_id: None,
        path: None,
    }
}

fn full_args() -> Args {
    Args {
        token: Some("token.txt".to_string()),
        url: Some("github.com".to_string()),
        platform: Some(ReviewInterface::GitHub),
        owner: Some("rust-lang".to_string()),
        repo: Some("rust".to_string()),
        id: Some(42),
        ..no_args()
    }
}

fn missing(args: &Args) -> String {
    match Review::from_args(args) {
        Err(Error::MissingConfig(name)) => name,
        other => panic!("expected a missing setting, got {:?}", other),
    }
}

#[test]
fn new_review_takes_its_settings_from_the_arguments() {
    let review = Review::from_args(&full_args()).unwrap();
    assert_eq!(review.interface, ReviewInterface::GitHub);
    assert_eq!(review.owner, "rust-lang");
    assert_eq!(review.repo, "rust");
    assert_eq!(review.url, "github.com");
    assert_eq!(review.id, 42);
    assert_eq!(review.auth, "token.txt");
    assert_eq!(review.comments, ".review_comments.yml");
    assert_eq!(review.local_repo, "./");
}

#[test]
fn new_review_takes_the_files_that_are_named() {
    let mut args = full_args();
    args.fname = Some("c.yml".to_string());
    args.local_repo = Some("/src/rust".to_string());
    let review = Review::from_args(&args).unwrap();
    assert_eq!(review.comments, "c.yml");
    assert_eq!(review.local_repo, "/src/rust");
}

#[test]
fn new_review_names_the_first_setting_that_is_missing() {
    assert_eq!(missing(&no_args()), "interface");
    let mut args = full_args();
    args.token = None;
    assert_eq!(missing(&args), "authentication");
    args.id = None;
    assert_eq!(missing(&args), "PR ID");
    args.url = None;
    assert_eq!(missing(&args), "URL");
    args.repo = None;
    assert_eq!(missing(&args), "reposiotry");
    args.owner = None;
    assert_eq!(missing(&args), "owner");
    args.platform = None;
    assert_eq!(missing(&args), "interface");
}

#[test]
fn update_replaces_what_is_given_and_keeps_the_rest() {
    let mut review = Review::from_args(&full_args()).unwrap();
    let mut args = no_args();
    args.id = Some(7);
    args.owner = Some("me".to_string());
    args.fname = Some("other.yml".to_string());
    assert!(review.update_config(&args).is_ok());
    assert_eq!(review.id, 7);
    assert_eq!(review.owner, "me");
    assert_eq!(review.comments, "other.yml");
    assert_eq!(review.repo, "rust");
    assert_eq!(review.url, "github.com");
    assert_eq!(review.auth, "token.txt");
    assert_eq!(review.local_repo, "./");
    assert_eq!(review.interface, ReviewInterface::GitHub);
}

#[test]
fn update_with_nothing_changes_nothing() {
    let mut review = Review::from_args(&full_args()).unwrap();
    assert!(review.update_config(&no_args()).is_ok());
    assert_eq!(review.id, 42);
    assert_eq!(review.owner, "rust-lang");
    assert_eq!(review.comments, ".review_comments.yml");
}

#[test]
fn settings_are_kept_in_one_file() {
    assert_eq!(Review::CONFIG_NAME, ".review.yml");
}

#[test]
fn comments_are_fetched_from_the_pull_request() {
    let review = Review::from_args(&full_args()).unwrap();
    assert_eq!(
        review.comments_url(),
        "https://api.github.com/repos/rust-lang/rust/pulls/42/comments"
    );
}

#[test]
fn replies_are_sent_to_the_comment() {
    let mut args = full_args();
    args.id = Some(4294967295);
    let review = Review::from_args(&args).unwrap();
    assert_eq!(
        review.replies_url(1307),
        "https://api.github.com/repos/rust-lang/rust/pulls/4294967295/comments/1307/replies"
    );
    assert_eq!(
        review.replies_url(0),
        "https://api.github.com/repos/rust-lang/rust/pulls/4294967295/comments/0/replies"
    );
}

#[test]
fn reply_needs_a_text_and_a_comment() {
    let (to, reply) = clireview::review::reply_request(Some(7), Some("done".to_string())).unwrap();
    assert_eq!(to, 7);
    assert_eq!(reply.body, "done");
    match clireview::review::reply_request(None, None) {
        Err(Error::MissingConfig(name)) => assert_eq!(name, "reply body"),
        other => panic!("expected a missing setting, got {:?}", other),
    }
    match clireview::review::reply_request(Some(7), None) {
        Err(Error::MissingConfig(name)) => assert_eq!(name, "reply body"),
        other => panic!("expected a missing setting, got {:?}", other),
    }
    match clireview::review::reply_request(None, Some("done".to_string())) {
        Err(Error::MissingConfig(name)) => assert_eq!(name, "ID"),
        other => panic!("expected a missing setting, got {:?}", other),
    }
}

#[test]
fn comment_needs_a_text_a_commit_and_a_file() {
    let text = || Some("why".to_string());
    let commit = || Some("c0ffee".to_string());
    let file = || Some("src/lib.rs".to_string());
    let comment = clireview::review::comment_request(commit(), text(), file()).unwrap();
    assert_eq!(comment.body, "why");
    assert_eq!(comment.commit_id, "c0ffee");
    assert_eq!(comment.path, "src/lib.rs");
    let missing = |r: Result<clireview::review::Comment, Error>| match r {
        Err(Error::MissingConfig(name)) => name,
        other => panic!("expected a missing setting, got {:?}", other),
    };
    assert_eq!(missing(clireview::review::comment_request(None, None, None)), "comment body");
    assert_eq!(missing(clireview::review::comment_request(None, text(), None)), "commit ID");
    assert_eq!(
        missing(clireview::review::comment_request(commit(), text(), None)),
        "relative file path"
    );
    assert_eq!(missing(clireview::review::comment_request(commit(), None, file())), "comment body");
}

#[test]
fn errors_say_what_is_wrong() {
    assert_eq!(Error::SNH("here".to_string()).message(), "Should not happen here");
    assert_eq!(Error::NotImplemented.message(), "not implemented");
    assert_eq!(
        Error::MissingConfig("owner".to_string()).message(),
        "configuration incomplete: owner missing"
    );
    assert_eq!(Error::InconsistentConfig.message(), "configuration inconsistent");
    assert_eq!(
        Error::DiffError(clireview::diff::Error::Parse).message(),
        "Error processing diff"
    );
}

#[test]
fn unreadable_hunk_is_a_diff_error_that_says_why() {
    assert!(matches!(
        Error::from_diff_error(clireview::diff::Error::Parse),
        Error::DiffError(clireview::diff::Error::Parse)
    ));
    assert!(matches!(
        Error::from_diff_error(clireview::diff::Error::Invalid),
        Error::DiffError(clireview::diff::Error::Invalid)
    ));
}
