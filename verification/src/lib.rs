//! Anchoring of review comments.
//!
//! A review platform hands out each comment of a review together with the hunk
//! of the unified diff that the comment was made on. This library reads such a
//! hunk, keeps what it says of both sides of the change, and uses the text of its
//! right side to find the lines of the current text of a file on which the
//! comment stands, however the file has changed since the review.
//!
//! - [`diff`] reads a hunk and gives back its texts; [`hunk`] says what a hunk
//!   means, and [`context`] what its runs of context are.
//! - [`comment`] finds the lines on which a comment stands.
//! - [`conversation`] groups the comments of a review into conversations.
//! - [`review`] holds the settings of a review.
//! - [`header`], [`lines`], [`number`] and [`text`] read the parts that a hunk is
//!   made of.
//!
//! Every function comes with a contract over a mathematical model of its
//! arguments, and is proved to keep it for every input. One thing is taken on
//! trust: that `String::push` appends a character.

pub mod comment;
pub mod context;
pub mod conversation;
pub mod diff;
pub mod header;
pub mod hunk;
pub mod lines;
pub mod number;
pub mod review;
pub mod text;
