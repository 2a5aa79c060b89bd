//! Review comments, and where a comment stands in the current text of its file.

use vstd::prelude::*;
use crate::diff::{CommentSide, Diff};
use crate::hunk::{parsed, text_on, Extent, Side};
use crate::text::{
    chars_of, count_before, count_of, find, first_occurrence, lemma_count_of_bound,
    lemma_first_occurrence_exists, occurs, occurs_at, occurs_first_at,
};

verus! {

/// The author of a comment.
#[derive(Debug, Clone)]
pub struct User {
    pub login: String,
}

/// A comment of a review, as the review platform hands it out. Line numbers
/// count from one.
#[derive(Debug, Clone)]
pub struct ReviewComment {
    pub id: u32,
    pub in_reply_to_id: Option<u32>,
    pub body: String,
    pub commit_id: String,
    pub original_commit_id: String,
    pub line: Option<u32>,
    /// The last line that the comment speaks of.
    pub original_line: u32,
    pub start_line: Option<u32>,
    /// The first line that the comment speaks of, where it speaks of several.
    pub original_start_line: Option<u32>,
    pub user: User,
    /// The hunk that the comment was made on.
    pub diff_hunk: String,
    pub path: String,
    pub subject_type: Option<String>,
    pub start_side: Option<String>,
}

/// What a comment speaks of: some lines of a file, or the file as a whole.
#[derive(Debug, Clone, Copy, PartialEq, Eq, Structural)]
pub enum SubjectType {
    Line,
    File,
}

/// Lines of a text, counted from zero: from `beg` up to but without `end`.
#[derive(Debug, Clone, Copy, PartialEq, Eq, Structural)]
pub struct LineRange {
    pub beg: u32,
    pub end: u32,
}

impl View for LineRange {
    type V = Extent;

    open spec fn view(&self) -> Extent {
        Extent { start: self.beg as int, end: self.end as int }
    }
}

/// The subject that the field `subject_type` of a comment names: the file only
/// if the field holds `file` and does not hold `line`.
pub open spec fn subject_of(subject_type: Option<String>) -> SubjectType {
    match subject_type {
        Some(subject) => if !occurs(subject@, "line"@) && occurs(subject@, "file"@) {
            SubjectType::File
        } else {
            SubjectType::Line
        },
        None => SubjectType::Line,
    }
}

/// The line of `text`, counted from zero, in which position `i` lies: the number
/// of line separators before it.
pub open spec fn line_of(text: Seq<char>, i: int) -> nat {
    count_of(text.take(i), '\n')
}

impl ReviewComment {
    /// Whether the lines that the comment names are lines of a file: counted
    /// from one, the first not behind the last.
    pub open spec fn well_formed(&self) -> bool {
        &&& 1 <= self.original_line
        &&& self.original_start_line matches Some(start) ==> 1 <= start <= self.original_line
    }

    /// The lines that the comment names, counted from zero.
    pub open spec fn literal_range(&self) -> Extent {
        Extent {
            start: match self.original_start_line {
                Some(start) => start - 1,
                None => self.original_line - 1,
            },
            end: self.original_line as int,
        }
    }

    /// Where the comment stands in `text`.
    ///
    /// A comment on a file stands where it says. So does a comment on lines
    /// whose hunk cannot be read, or has no text on the right side, or has a text
    /// that `text` does not hold. Otherwise it starts at the line in which the
    /// text of the hunk first stands in `text`, and covers as many lines as it
    /// names.
    pub open spec fn resolved_range(&self, text: Seq<char>) -> Extent {
        let literal = self.literal_range();
        match subject_of(self.subject_type) {
            SubjectType::File => literal,
            SubjectType::Line => match parsed(self.diff_hunk@, self.path@) {
                Err(_) => literal,
                Ok(diff) => {
                    let needle = text_on(diff, Side::Right);
                    if needle.len() == 0 {
                        literal
                    } else {
                        match first_occurrence(text, needle) {
                            None => literal,
                            Some(i) => {
                                let beg = line_of(text, i) as int;
                                Extent { start: beg, end: beg + (literal.end - literal.start) }
                            },
                        }
                    }
                },
            },
        }
    }

    /// The side of the review that the comment was made on.
    pub fn commented_side(&self) -> (side: CommentSide)
        ensures
            side == CommentSide::LL,
    {
        CommentSide::LL
    }

    /// What the comment speaks of.
    pub fn get_subject_type(&self) -> (subject: SubjectType)
        ensures
            subject == subject_of(self.subject_type),
    {
        match &self.subject_type {
            Some(subject) => {
                let hay = chars_of(subject.as_str());
                let line = chars_of("line");
                let file = chars_of("file");
                if find(hay.as_slice(), line.as_slice()).is_some() {
                    SubjectType::Line
                } else if find(hay.as_slice(), file.as_slice()).is_some() {
                    SubjectType::File
                } else {
                    SubjectType::Line
                }
            },
            None => SubjectType::Line,
        }
    }

    /// Whether the lines that the comment names are lines of a file and the lines
    /// of `text` that it stands on have numbers of 32 bits.
    pub open spec fn resolvable(&self, text: Seq<char>) -> bool {
        self.well_formed() && self.resolved_range(text).end <= u32::MAX
    }

    /// Finds the lines of `text` that the comment stands on, if `text` has them:
    /// `None` if the comment names no lines of a file, or would stand on a line
    /// whose number does not fit in 32 bits.
    pub fn checked_line_range(&self, text: &str) -> (r: Option<LineRange>)
        ensures
            match r {
                Some(range) => self.resolvable(text@) && range@ == self.resolved_range(text@),
                None => !self.resolvable(text@),
            },
    {
        let end = self.original_line;
        if end < 1 {
            return None;
        }
        let beg = match self.original_start_line {
            Some(start) => {
                if start < 1 || start > end {
                    return None;
                }
                start - 1
            },
            None => end - 1,
        };
        let literal = LineRange { beg, end };
        match self.get_subject_type() {
            SubjectType::File => Some(literal),
            SubjectType::Line => {
                let span = end - beg;
                match Diff::from_only_hunk(self.diff_hunk.as_str(), self.path.as_str()) {
                    Err(_) => Some(literal),
                    Ok(diff) => {
                        let commented_on_text = diff.text();
                        let needle = chars_of(commented_on_text.as_str());
                        if needle.len() == 0 {
                            return Some(literal);
                        }
                        let hay = chars_of(text);
                        match find(hay.as_slice(), needle.as_slice()) {
                            None => Some(literal),
                            Some(index) => {
                                let line = count_before(hay.as_slice(), index, '\n');
                                if line > 0xffff_ffff - span as usize {
                                    return None;
                                }
                                let beg = line as u32;
                                Some(LineRange { beg, end: beg + span })
                            },
                        }
                    },
                }
            },
        }
    }

    /// Finds the lines of `text` that the comment stands on.
    pub fn line_range(&self, text: &str) -> (r: LineRange)
        requires
            self.resolvable(text@),
        ensures
            r@ == self.resolved_range(text@),
    {
        self.checked_line_range(text).unwrap()
    }
}

/// The text that a comment on lines is searched by: the right side of its hunk.
pub open spec fn searched_text(c: ReviewComment) -> Seq<char> {
    text_on(parsed(c.diff_hunk@, c.path@)->Ok_0, Side::Right)
}

/// A comment on lines whose hunk has a text that stands in the document starts
/// at the line in which that text first stands, however far that is from the
/// lines that the comment names, and covers as many lines as it names.
pub proof fn lemma_found_text_anchors_comment(c: ReviewComment, text: Seq<char>)
    requires
        subject_of(c.subject_type) == SubjectType::Line,
        parsed(c.diff_hunk@, c.path@) is Ok,
        searched_text(c).len() > 0,
        occurs(text, searched_text(c)),
    ensures
        first_occurrence(text, searched_text(c)) matches Some(i) && occurs_first_at(
            text,
            searched_text(c),
            i,
        ) && c.resolved_range(text).start == line_of(text, i),
        c.resolved_range(text).end - c.resolved_range(text).start == c.literal_range().end
            - c.literal_range().start,
{
    let i = choose|i: int| occurs_at(text, searched_text(c), i);
    lemma_first_occurrence_exists(text, searched_text(c), i);
}

/// A comment stays at the lines that it names if the text of its hunk is empty
/// or does not stand in the document, if its hunk cannot be read, and if it is a
/// comment on a file.
pub proof fn lemma_unfound_text_keeps_comment(c: ReviewComment, text: Seq<char>)
    requires
        subject_of(c.subject_type) == SubjectType::File || parsed(c.diff_hunk@, c.path@) is Err
            || searched_text(c).len() == 0 || !occurs(text, searched_text(c)),
    ensures
        c.resolved_range(text) == c.literal_range(),
{
}

/// The lines that a comment stands on lie within as many lines as the document
/// has characters and the comment has lines.
pub proof fn lemma_resolved_range_bound(c: ReviewComment, text: Seq<char>)
    requires
        c.well_formed(),
    ensures
        0 <= c.resolved_range(text).start <= c.resolved_range(text).end <= text.len()
            + c.original_line,
{
    if subject_of(c.subject_type) == SubjectType::Line && parsed(c.diff_hunk@, c.path@) is Ok
        && searched_text(c).len() > 0 && occurs(text, searched_text(c)) {
        lemma_found_text_anchors_comment(c, text);
        let i = first_occurrence(text, searched_text(c))->0;
        lemma_count_of_bound(text.take(i), '\n');
    }
}

} // verus!
