//! The settings of a review: which pull request is under review and where its
//! comments are kept.

use vstd::prelude::*;
use vstd::string::StringExecFns;
use crate::number::{decimal, push_decimal};

verus! {

/// What can go wrong outside the reading of hunks.
#[derive(Debug, Clone)]
pub enum Error {
    /// Something that should not happen did.
    SNH(String),
    NotImplemented,
    /// A setting is missing; the field says which.
    MissingConfig(String),
    InconsistentConfig,
    /// A hunk could not be read; the field says why.
    DiffError(crate::diff::Error),
}

/// The review platforms that are supported.
#[derive(Debug, Clone, Copy, PartialEq, Eq, Structural)]
pub enum ReviewInterface {
    GitHub,
}

/// What the program is asked to do.
#[derive(Debug, Clone, Copy, PartialEq, Eq, Structural)]
pub enum Command {
    Init,
    Update,
    Run,
    Print,
    Raw,
    Reply,
    Comment,
}

/// What was given on the command line.
#[derive(Debug, Clone)]
pub struct Args {
    pub token: Option<String>,
    pub command: Option<Command>,
    pub url: Option<String>,
    pub platform: Option<ReviewInterface>,
    pub owner: Option<String>,
    pub repo: Option<String>,
    pub id: Option<u32>,
    pub fname: Option<String>,
    pub local_repo: Option<String>,
    pub comment: Option<u32>,
    pub body: Option<String>,
    pub commit_id: Option<String>,
    pub path: Option<String>,
}

/// The settings of a review.
#[derive(Debug, Clone)]
pub struct Review {
    pub interface: ReviewInterface,
    pub owner: String,
    pub repo: String,
    /// The file that holds the token.
    pub auth: String,
    pub url: String,
    pub id: u32,
    /// The file that the comments are saved to.
    pub comments: String,
    pub local_repo: String,
}

/// The model of the settings of a review.
#[verifier::ext_equal]
pub struct ReviewView {
    pub interface: ReviewInterface,
    pub owner: Seq<char>,
    pub repo: Seq<char>,
    pub auth: Seq<char>,
    pub url: Seq<char>,
    pub id: u32,
    pub comments: Seq<char>,
    pub local_repo: Seq<char>,
}

impl View for Review {
    type V = ReviewView;

    open spec fn view(&self) -> ReviewView {
        ReviewView {
            interface: self.interface,
            owner: self.owner@,
            repo: self.repo@,
            auth: self.auth@,
            url: self.url@,
            id: self.id,
            comments: self.comments@,
            local_repo: self.local_repo@,
        }
    }
}

/// The text of `given`, or `otherwise` if nothing was given.
pub open spec fn text_or(given: Option<String>, otherwise: Seq<char>) -> Seq<char> {
    match given {
        Some(text) => text@,
        None => otherwise,
    }
}

/// The name of the first setting that a new review needs and `args` does not
/// give, if there is one.
pub open spec fn missing_setting(args: Args) -> Option<Seq<char>> {
    if args.platform is None {
        Some("interface"@)
    } else if args.owner is None {
        Some("owner"@)
    } else if args.repo is None {
        Some("reposiotry"@)
    } else if args.url is None {
        Some("URL"@)
    } else if args.id is None {
        Some("PR ID"@)
    } else if args.token is None {
        Some("authentication"@)
    } else {
        None
    }
}

/// The settings that `args` gives to a new review, where none is missing. The
/// repository is the current directory unless `args` names one, and the comments
/// go to `.review_comments.yml` unless `args` names a file.
pub open spec fn settings_of(args: Args) -> ReviewView {
    ReviewView {
        interface: args.platform->0,
        owner: args.owner->0@,
        repo: args.repo->0@,
        auth: args.token->0@,
        url: args.url->0@,
        id: args.id->0,
        comments: text_or(args.fname, ".review_comments.yml"@),
        local_repo: text_or(args.local_repo, "./"@),
    }
}

/// The settings `review` with every setting that `args` gives put in place of
/// the old one.
pub open spec fn updated(review: ReviewView, args: Args) -> ReviewView {
    ReviewView {
        interface: match args.platform {
            Some(platform) => platform,
            None => review.interface,
        },
        owner: text_or(args.owner, review.owner),
        repo: text_or(args.repo, review.repo),
        auth: text_or(args.token, review.auth),
        url: text_or(args.url, review.url),
        id: match args.id {
            Some(id) => id,
            None => review.id,
        },
        comments: text_or(args.fname, review.comments),
        local_repo: text_or(args.local_repo, review.local_repo),
    }
}

/// A copy of `given`, or of `otherwise` if nothing was given.
fn owned_or(given: &Option<String>, otherwise: &str) -> (text: String)
    ensures
        text@ == text_or(*given, otherwise@),
{
    match given {
        Some(text) => text.clone(),
        None => otherwise.to_owned(),
    }
}

impl Review {
    /// The name of the file that holds the settings.
    pub const CONFIG_NAME: &'static str = ".review.yml";

    /// The settings of a new review, from what was given on the command line.
    pub fn from_args(args: &Args) -> (r: Result<Review, Error>)
        ensures
            match r {
                Ok(review) => missing_setting(*args) is None && review@ == settings_of(*args),
                Err(e) => e matches Error::MissingConfig(name) && missing_setting(*args) == Some(
                    name@,
                ),
            },
    {
        let interface = match args.platform {
            Some(platform) => platform,
            None => {
                return Err(Error::MissingConfig("interface".to_owned()));
            },
        };
        let owner = match &args.owner {
            Some(owner) => owner.clone(),
            None => {
                return Err(Error::MissingConfig("owner".to_owned()));
            },
        };
        let repo = match &args.repo {
            Some(repo) => repo.clone(),
            None => {
                return Err(Error::MissingConfig("reposiotry".to_owned()));
            },
        };
        let url = match &args.url {
            Some(url) => url.clone(),
            None => {
                return Err(Error::MissingConfig("URL".to_owned()));
            },
        };
        let id = match args.id {
            Some(id) => id,
            None => {
                return Err(Error::MissingConfig("PR ID".to_owned()));
            },
        };
        let auth = match &args.token {
            Some(token) => token.clone(),
            None => {
                return Err(Error::MissingConfig("authentication".to_owned()));
            },
        };
        let local_repo = owned_or(&args.local_repo, "./");
        let comments = owned_or(&args.fname, ".review_comments.yml");
        Ok(Review { interface, owner, repo, url, id, auth, comments, local_repo })
    }

    /// Puts every setting that `args` gives in place of the old one.
    pub fn update_config(&mut self, args: &Args) -> (r: Result<(), Error>)
        ensures
            r is Ok,
            final(self)@ == updated(old(self)@, *args),
    {
        self.interface = match args.platform {
            Some(platform) => platform,
            None => self.interface,
        };
        self.owner = owned_or(&args.owner, self.owner.as_str());
        self.repo = owned_or(&args.repo, self.repo.as_str());
        self.url = owned_or(&args.url, self.url.as_str());
        self.id = match args.id {
            Some(id) => id,
            None => self.id,
        };
        self.auth = owned_or(&args.token, self.auth.as_str());
        self.comments = owned_or(&args.fname, self.comments.as_str());
        self.local_repo = owned_or(&args.local_repo, self.local_repo.as_str());
        Ok(())
    }

    /// The address at which the platform hands out the comments of the review.
    pub fn comments_url(&self) -> (url: String)
        ensures
            url@ == comments_url_of(self@),
    {
        match self.interface {
            ReviewInterface::GitHub => {
                let mut url = "https://api.".to_owned();
                url.append(self.url.as_str());
                url.append("/repos/");
                url.append(self.owner.as_str());
                url.append("/");
                url.append(self.repo.as_str());
                url.append("/pulls/");
                push_decimal(&mut url, self.id);
                url.append("/comments");
                url
            },
        }
    }

    /// The address at which the platform takes a reply to the comment `comment`.
    pub fn replies_url(&self, comment: u32) -> (url: String)
        ensures
            url@ == replies_url_of(self@, comment),
    {
        let mut url = self.comments_url();
        url.append("/");
        push_decimal(&mut url, comment);
        url.append("/replies");
        url
    }
}

/// The address of the comments of the review `review`.
pub open spec fn comments_url_of(review: ReviewView) -> Seq<char> {
    "https://api."@ + review.url + "/repos/"@ + review.owner + "/"@ + review.repo + "/pulls/"@
        + decimal(review.id as nat) + "/comments"@
}

/// The address of the replies to the comment `comment` of the review `review`.
pub open spec fn replies_url_of(review: ReviewView, comment: u32) -> Seq<char> {
    comments_url_of(review) + "/"@ + decimal(comment as nat) + "/replies"@
}

/// A reply to a comment, as it is sent to the platform.
#[derive(Debug, Clone)]
pub struct Reply {
    pub body: String,
}

/// A new comment on a file, as it is sent to the platform.
#[derive(Debug, Clone)]
pub struct Comment {
    pub body: String,
    pub commit_id: String,
    pub path: String,
}

/// The reply with the text `body` to the comment `id`, if both are given. If
/// not, the error names what is missing, the text first.
pub fn reply_request(id: Option<u32>, body: Option<String>) -> (r: Result<(u32, Reply), Error>)
    ensures
        match r {
            Ok((to, reply)) => id == Some(to) && body == Some(reply.body),
            Err(e) => e matches Error::MissingConfig(name) && if body is None {
                name@ == "reply body"@
            } else {
                id is None && name@ == "ID"@
            },
        },
{
    let body = match body {
        Some(body) => body,
        None => {
            return Err(Error::MissingConfig("reply body".to_owned()));
        },
    };
    let id = match id {
        Some(id) => id,
        None => {
            return Err(Error::MissingConfig("ID".to_owned()));
        },
    };
    Ok((id, Reply { body }))
}

/// The comment with the text `body` on the file `path` as of the commit
/// `commit_id`, if all three are given. If not, the error names what is missing:
/// the text before the commit, the commit before the file.
pub fn comment_request(
    commit_id: Option<String>,
    body: Option<String>,
    path: Option<String>,
) -> (r: Result<Comment, Error>)
    ensures
        match r {
            Ok(comment) => body == Some(comment.body) && commit_id == Some(comment.commit_id)
                && path == Some(comment.path),
            Err(e) => e matches Error::MissingConfig(name) && if body is None {
                name@ == "comment body"@
            } else if commit_id is None {
                name@ == "commit ID"@
            } else {
                path is None && name@ == "relative file path"@
            },
        },
{
    let body = match body {
        Some(body) => body,
        None => {
            return Err(Error::MissingConfig("comment body".to_owned()));
        },
    };
    let commit_id = match commit_id {
        Some(commit_id) => commit_id,
        None => {
            return Err(Error::MissingConfig("commit ID".to_owned()));
        },
    };
    let path = match path {
        Some(path) => path,
        None => {
            return Err(Error::MissingConfig("relative file path".to_owned()));
        },
    };
    Ok(Comment { body, commit_id, path })
}

impl Error {
    /// What the error says, in words.
    pub open spec fn message_text(&self) -> Seq<char> {
        match self {
            Error::SNH(what) => "Should not happen "@ + what@,
            Error::NotImplemented => "not implemented"@,
            Error::MissingConfig(name) => "configuration incomplete: "@ + name@ + " missing"@,
            Error::InconsistentConfig => "configuration inconsistent"@,
            Error::DiffError(_) => "Error processing diff"@,
        }
    }

    /// The error in words.
    pub fn message(&self) -> (s: String)
        ensures
            s@ == self.message_text(),
    {
        match self {
            Error::SNH(what) => {
                let mut s = "Should not happen ".to_owned();
                s.append(what.as_str());
                s
            },
            Error::NotImplemented => "not implemented".to_owned(),
            Error::MissingConfig(name) => {
                let mut s = "configuration incomplete: ".to_owned();
                s.append(name.as_str());
                s.append(" missing");
                s
            },
            Error::InconsistentConfig => "configuration inconsistent".to_owned(),
            Error::DiffError(_) => "Error processing diff".to_owned(),
        }
    }

    /// The error for a hunk that could not be read for the reason `err`.
    pub fn from_diff_error(err: crate::diff::Error) -> (e: Error)
        ensures
            e == Error::DiffError(err),
    {
        Error::DiffError(err)
    }
}

} // verus!
