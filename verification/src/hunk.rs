//! What a hunk says: the mathematical model of a parsed hunk.
//!
//! A hunk is a header line and a body. Each body line starts with a marker that
//! tells to which side of the change it belongs: a space for a line on both sides
//! (context), `-` for a line of the left side only, `+` for a line of the right
//! side only.

use vstd::prelude::*;
use crate::header::{header_fields, header_starts};
use crate::diff::{CommentSide, Error};
use crate::lines::{
    ends_with_newline, joined, lemma_lines_of_rendered, lemma_lines_separator_free,
    lemma_rendered_end, lines, rendered, separator_free,
};
use crate::text::index_of;

verus! {

/// What a body line is.
#[derive(Debug, Clone, Copy, PartialEq, Eq, Structural)]
pub enum LineType {
    Context,
    Addition,
    Deletion,
}

/// A side of the change.
#[derive(Debug, Clone, Copy, PartialEq, Eq, Structural)]
pub enum Side {
    Left,
    Right,
}

/// A half-open interval of line numbers, from `start` up to but without `end`.
pub struct Extent {
    pub start: int,
    pub end: int,
}

/// The model of a parsed hunk.
#[verifier::ext_equal]
pub struct DiffView {
    pub path: Seq<char>,
    pub original_range: Extent,
    pub range: Extent,
    pub left_lines: Seq<Seq<char>>,
    pub right_lines: Seq<Seq<char>>,
    pub context: Seq<Extent>,
    pub line_pairs: Seq<(int, int)>,
    pub trailing_newline: bool,
}

impl DiffView {
    /// What holds of every hunk: each side holds as many lines as its range
    /// covers, the line pairs lead from the start of both ranges to their end, and
    /// the runs of context lie in the right range, in ascending order, none empty
    /// and none overlapping another.
    pub open spec fn coherent(self) -> bool {
        &&& self.original_range.start <= self.original_range.end
        &&& self.range.start <= self.range.end
        &&& self.left_lines.len() == self.original_range.end - self.original_range.start
        &&& self.right_lines.len() == self.range.end - self.range.start
        &&& self.line_pairs.len() > 0
        &&& self.line_pairs.first() == (self.original_range.start, self.range.start)
        &&& self.line_pairs.last() == (self.original_range.end, self.range.end)
        &&& forall|k: int|
            0 <= k < self.context.len() ==> self.range.start <= (#[trigger] self.context[k]).start
                < self.context[k].end <= self.range.end
        &&& forall|j: int, k: int|
            0 <= j < k < self.context.len() ==> (#[trigger] self.context[j]).end <= (
            #[trigger] self.context[k]).start
    }
}

/// What the body line `line` is, by its first character; `None` if the line is
/// empty or starts with anything else. The line that a diff writes where a file
/// ends without a line separator starts with a backslash, and so is none of the
/// three.
pub open spec fn line_type(line: Seq<char>) -> Option<LineType> {
    if line.len() == 0 {
        None
    } else if line[0] == ' ' {
        Some(LineType::Context)
    } else if line[0] == '-' {
        Some(LineType::Deletion)
    } else if line[0] == '+' {
        Some(LineType::Addition)
    } else {
        None
    }
}

/// Whether a line of type `t` is part of the file on `side`.
pub open spec fn shows(t: LineType, side: Side) -> bool {
    match t {
        LineType::Context => true,
        LineType::Deletion => side == Side::Left,
        LineType::Addition => side == Side::Right,
    }
}

/// Whether the body line `line` is part of the file on `side`.
pub open spec fn on_side(line: Seq<char>, side: Side) -> bool {
    line_type(line) matches Some(t) && shows(t, side)
}

/// Whether the body line `line` is an addition or a deletion.
pub open spec fn is_change(line: Seq<char>) -> bool {
    line_type(line) == Some(LineType::Addition) || line_type(line) == Some(LineType::Deletion)
}

/// Whether the body line `line` is a context line.
pub open spec fn is_context(line: Seq<char>) -> bool {
    line_type(line) == Some(LineType::Context)
}

/// Whether every line of `body` has a known marker.
pub open spec fn well_marked(body: Seq<Seq<char>>) -> bool {
    forall|i: int| 0 <= i < body.len() ==> line_type(#[trigger] body[i]) is Some
}

/// The lines of `body` that are part of the file on `side`, in order and without
/// their markers.
pub open spec fn side_lines(body: Seq<Seq<char>>, side: Side) -> Seq<Seq<char>>
    decreases body.len(),
{
    if body.len() == 0 {
        Seq::empty()
    } else if on_side(body.last(), side) {
        side_lines(body.drop_last(), side).push(body.last().skip(1))
    } else {
        side_lines(body.drop_last(), side)
    }
}

/// The line number on `side` that follows `body`, when the hunk starts at line
/// `start` there.
pub open spec fn cursor(start: int, body: Seq<Seq<char>>, side: Side) -> int {
    start + side_lines(body, side).len()
}

/// The pairs of line numbers, left and right, reached after the header and after
/// each line of `body`.
pub open spec fn line_pairs(body: Seq<Seq<char>>, left_start: int, right_start: int) -> Seq<
    (int, int),
> {
    Seq::new(
        body.len() + 1,
        |k: int|
            (
                cursor(left_start, body.take(k), Side::Left),
                cursor(right_start, body.take(k), Side::Right),
            ),
    )
}

/// The right line number at which the run of context lines that ends `body`
/// starts, if `body` ends in such a run and a change comes before it.
pub open spec fn open_run(body: Seq<Seq<char>>, right_start: int) -> Option<int>
    decreases body.len(),
{
    if body.len() == 0 || !is_context(body.last()) {
        None
    } else {
        let before = body.drop_last();
        if before.len() > 0 && is_change(before.last()) {
            Some(cursor(right_start, before, Side::Right))
        } else {
            open_run(before, right_start)
        }
    }
}

/// The runs of context lines in `body` that have a change before them and a
/// change behind them, each as the right line numbers that it covers, in the
/// order of the body.
pub open spec fn context_runs(body: Seq<Seq<char>>, right_start: int) -> Seq<Extent>
    decreases body.len(),
{
    if body.len() == 0 {
        Seq::empty()
    } else {
        let before = body.drop_last();
        let runs = context_runs(before, right_start);
        match open_run(before, right_start) {
            Some(start) if is_change(body.last()) => runs.push(
                Extent { start, end: cursor(right_start, before, Side::Right) },
            ),
            _ => runs,
        }
    }
}

/// One more line of the body adds its text to the side that it is on.
pub proof fn lemma_side_lines_push(done: Seq<Seq<char>>, line: Seq<char>, side: Side)
    ensures
        side_lines(done.push(line), side) == if on_side(line, side) {
            side_lines(done, side).push(line.skip(1))
        } else {
            side_lines(done, side)
        },
{
    assert(done.push(line).drop_last() == done);
}

/// The start of a body holds no more lines of a side than the whole body.
pub proof fn lemma_side_lines_prefix(body: Seq<Seq<char>>, k: int, side: Side)
    requires
        0 <= k <= body.len(),
    ensures
        side_lines(body.take(k), side).len() <= side_lines(body, side).len(),
    decreases body.len() - k,
{
    if k < body.len() {
        assert(body.take(k + 1) == body.take(k).push(body[k]));
        lemma_side_lines_push(body.take(k), body[k], side);
        lemma_side_lines_prefix(body, k + 1, side);
    } else {
        assert(body.take(k) == body);
    }
}

/// Line numbers do not go down along the body.
pub proof fn lemma_cursor_monotone(start: int, body: Seq<Seq<char>>, i: int, j: int, side: Side)
    requires
        0 <= i <= j <= body.len(),
    ensures
        cursor(start, body.take(i), side) <= cursor(start, body.take(j), side),
{
    assert(body.take(j).take(i) == body.take(i));
    lemma_side_lines_prefix(body.take(j), i, side);
}

/// The line pairs of a body start at the starting line numbers, end at the end of
/// both ranges, and go down on neither side.
pub proof fn lemma_line_pairs_order(body: Seq<Seq<char>>, left_start: int, right_start: int)
    ensures
        ({
            let pairs = line_pairs(body, left_start, right_start);
            &&& pairs.len() == body.len() + 1
            &&& pairs.first() == (left_start, right_start)
            &&& pairs.last() == (
                cursor(left_start, body, Side::Left),
                cursor(right_start, body, Side::Right),
            )
            &&& forall|i: int, j: int|
                0 <= i <= j < pairs.len() ==> (#[trigger] pairs[i]).0 <= (#[trigger] pairs[j]).0
                    && pairs[i].1 <= pairs[j].1
        }),
{
    let pairs = line_pairs(body, left_start, right_start);
    assert(body.take(body.len() as int) == body);
    assert forall|i: int, j: int| 0 <= i <= j < pairs.len() implies (#[trigger] pairs[i]).0 <= (
    #[trigger] pairs[j]).0 && pairs[i].1 <= pairs[j].1 by {
        lemma_cursor_monotone(left_start, body, i, j, Side::Left);
        lemma_cursor_monotone(right_start, body, i, j, Side::Right);
    }
}

/// Whether `hunk` starts with the marker of a header line.
pub open spec fn starts_with_marker(hunk: Seq<char>) -> bool {
    hunk.len() >= 2 && hunk[0] == '@' && hunk[1] == '@'
}

/// The hunk that the body `body` makes with the starting line numbers
/// `left_start` and `right_start`.
pub open spec fn hunk_of(
    path: Seq<char>,
    left_start: int,
    right_start: int,
    body: Seq<Seq<char>>,
    trailing_newline: bool,
) -> DiffView {
    DiffView {
        path,
        original_range: Extent { start: left_start, end: cursor(left_start, body, Side::Left) },
        range: Extent { start: right_start, end: cursor(right_start, body, Side::Right) },
        left_lines: side_lines(body, Side::Left),
        right_lines: side_lines(body, Side::Right),
        context: context_runs(body, right_start),
        line_pairs: line_pairs(body, left_start, right_start),
        trailing_newline,
    }
}

/// What the text `hunk` says of the file `path`.
///
/// The first line has to be a header that gives both starting line numbers:
/// otherwise the result is `Error::Parse`. Every other line has to carry a known
/// marker, and the line numbers that the body reaches have to fit in 32 bits:
/// otherwise the result is `Error::Invalid`.
pub open spec fn parsed(hunk: Seq<char>, path: Seq<char>) -> Result<DiffView, Error> {
    if !starts_with_marker(hunk) {
        Err(Error::Parse)
    } else {
        match header_starts(lines(hunk)[0]) {
            None => Err(Error::Parse),
            Some((left_start, right_start)) => {
                let body = lines(hunk).skip(1);
                if well_marked(body) && cursor(left_start as int, body, Side::Left) <= u32::MAX
                    && cursor(right_start as int, body, Side::Right) <= u32::MAX {
                    Ok(
                        hunk_of(
                            path,
                            left_start as int,
                            right_start as int,
                            body,
                            ends_with_newline(hunk),
                        ),
                    )
                } else {
                    Err(Error::Invalid)
                }
            },
        }
    }
}

/// The text of the lines `lines`, which start at line number `text_start` and end
/// before `text_end`, as far as `comment` covers them: `Error::Invalid` if
/// `comment` starts before `text_start` or ends behind `text_end`, else the
/// lines from `comment.start` on, as many as `comment` is long.
pub open spec fn part_of_lines(
    lines: Seq<Seq<char>>,
    text_start: int,
    text_end: int,
    comment: Extent,
    trailing_newline: bool,
) -> Result<Seq<char>, Error> {
    if comment.start < text_start || comment.end > text_end {
        Err(Error::Invalid)
    } else {
        let from = comment.start - text_start;
        let to = from + (comment.end - comment.start);
        if from < to {
            Ok(rendered(lines.subrange(from, to), trailing_newline))
        } else {
            Ok(Seq::empty())
        }
    }
}

/// The text of the part of `diff` that `comment` covers on `side`. The line
/// numbers of a side go from the first to the last of its line pairs. Only a
/// range that stays on one side has a text.
pub open spec fn part_of(diff: DiffView, comment: Extent, side: CommentSide) -> Result<
    Seq<char>,
    Error,
> {
    match side {
        CommentSide::LL => part_of_lines(
            diff.left_lines,
            diff.line_pairs.first().0,
            diff.line_pairs.last().0,
            comment,
            diff.trailing_newline,
        ),
        CommentSide::RR => part_of_lines(
            diff.right_lines,
            diff.line_pairs.first().1,
            diff.line_pairs.last().1,
            comment,
            diff.trailing_newline,
        ),
        _ => Err(Error::Invalid),
    }
}

/// The texts of the runs of context of `diff`, one for each run: its lines, each
/// followed by a line separator.
pub open spec fn context_texts(diff: DiffView) -> Seq<Seq<char>> {
    Seq::new(
        diff.context.len(),
        |i: int|
            joined(
                diff.right_lines.subrange(
                    diff.context[i].start - diff.range.start,
                    diff.context[i].end - diff.range.start,
                ),
            ),
    )
}

/// The lines of `diff` on `side`.
pub open spec fn lines_on(diff: DiffView, side: Side) -> Seq<Seq<char>> {
    match side {
        Side::Left => diff.left_lines,
        Side::Right => diff.right_lines,
    }
}

/// The text of `diff` on `side`.
pub open spec fn text_on(diff: DiffView, side: Side) -> Seq<char> {
    rendered(lines_on(diff, side), diff.trailing_newline)
}

/// A line of the body that is on a side stands among the lines of that side
/// behind those that come before it in the body: at the place that its line
/// number gives.
pub proof fn lemma_side_line_position(body: Seq<Seq<char>>, i: int, j: int, side: Side)
    requires
        0 <= i < j <= body.len(),
        on_side(body[i], side),
    ensures
        side_lines(body.take(i), side).len() < side_lines(body.take(j), side).len(),
        side_lines(body.take(j), side)[side_lines(body.take(i), side).len() as int]
            == body[i].skip(1),
    decreases j - i,
{
    assert(body.take(j) == body.take(j - 1).push(body[j - 1]));
    lemma_side_lines_push(body.take(j - 1), body[j - 1], side);
    if i < j - 1 {
        lemma_side_line_position(body, i, j - 1, side);
    }
}

/// The lines of a side hold no line separator if the lines of the body hold
/// none.
pub proof fn lemma_side_lines_separator_free(body: Seq<Seq<char>>, side: Side)
    requires
        separator_free(body),
    ensures
        separator_free(side_lines(body, side)),
    decreases body.len(),
{
    if body.len() > 0 {
        let before = body.drop_last();
        lemma_side_lines_separator_free(before, side);
    }
}

/// Each side of a parsed hunk holds the lines of the body that are on that side,
/// in the order of the body and without their markers, and its text gives them
/// back: split into lines, the text of a side is those lines. The one exception
/// is an empty last line with no separator behind it, which leaves no trace in
/// the text.
pub proof fn lemma_text_reproduces_lines(hunk: Seq<char>, path: Seq<char>, side: Side)
    requires
        parsed(hunk, path) is Ok,
    ensures
        ({
            let diff = parsed(hunk, path)->Ok_0;
            let body = lines(hunk).skip(1);
            &&& lines_on(diff, side) == side_lines(body, side)
            &&& forall|i: int|
                0 <= i < body.len() && on_side(#[trigger] body[i], side) ==> lines_on(
                    diff,
                    side,
                )[side_lines(body.take(i), side).len() as int] == body[i].skip(1)
            &&& diff.trailing_newline || lines_on(diff, side).len() == 0 || lines_on(
                diff,
                side,
            ).last().len() > 0 ==> lines(text_on(diff, side)) == lines_on(diff, side)
        }),
{
    let diff = parsed(hunk, path)->Ok_0;
    let body = lines(hunk).skip(1);
    assert(body.take(body.len() as int) == body);
    assert forall|i: int| 0 <= i < body.len() && on_side(#[trigger] body[i], side) implies lines_on(
        diff,
        side,
    )[side_lines(body.take(i), side).len() as int] == body[i].skip(1) by {
        lemma_side_line_position(body, i, body.len() as int, side);
    }
    lemma_lines_separator_free(hunk);
    lemma_side_lines_separator_free(body, side);
    if diff.trailing_newline || lines_on(diff, side).len() == 0 || lines_on(diff, side).last().len()
        > 0 {
        lemma_lines_of_rendered(lines_on(diff, side), diff.trailing_newline);
    }
}

/// Each side of a parsed hunk holds as many lines as its range covers.
pub proof fn lemma_ranges_cover_lines(hunk: Seq<char>, path: Seq<char>)
    requires
        parsed(hunk, path) is Ok,
    ensures
        ({
            let diff = parsed(hunk, path)->Ok_0;
            &&& diff.left_lines.len() == diff.original_range.end - diff.original_range.start
            &&& diff.right_lines.len() == diff.range.end - diff.range.start
        }),
{
}

/// The text of a side of a parsed hunk ends as the hunk does. If the hunk ends in
/// a line separator, the text of a side that has lines ends in one. If it does
/// not, the text of a side is its joined lines without the last separator; it
/// then ends in no separator, unless the last line of the side is empty.
pub proof fn lemma_trailing_newline_fidelity(hunk: Seq<char>, path: Seq<char>, side: Side)
    requires
        parsed(hunk, path) is Ok,
        lines_on(parsed(hunk, path)->Ok_0, side).len() > 0,
    ensures
        ({
            let diff = parsed(hunk, path)->Ok_0;
            let text = text_on(diff, side);
            &&& ends_with_newline(hunk) ==> text == joined(lines_on(diff, side))
                && ends_with_newline(text)
            &&& !ends_with_newline(hunk) ==> text.push('\n') == joined(lines_on(diff, side))
            &&& !ends_with_newline(hunk) && lines_on(diff, side).last().len() > 0
                ==> !ends_with_newline(text)
        }),
{
    let diff = parsed(hunk, path)->Ok_0;
    let body = lines(hunk).skip(1);
    lemma_lines_separator_free(hunk);
    lemma_side_lines_separator_free(body, side);
    lemma_rendered_end(lines_on(diff, side), diff.trailing_newline);
}

/// A text that does not start with a header is no hunk, nor is one whose header
/// gives no starting line numbers: a header without `+`, for one.
pub proof fn lemma_malformed_header(hunk: Seq<char>, path: Seq<char>)
    requires
        !starts_with_marker(hunk) || header_starts(lines(hunk)[0]) is None || index_of(
            header_fields(lines(hunk)[0]),
            '+',
        ) is None,
    ensures
        parsed(hunk, path) == Err::<DiffView, Error>(Error::Parse),
{
}

/// A hunk with a good header and a body line that starts with no known marker is
/// invalid.
pub proof fn lemma_unmarked_line(hunk: Seq<char>, path: Seq<char>, i: int)
    requires
        starts_with_marker(hunk),
        header_starts(lines(hunk)[0]) is Some,
        1 <= i < lines(hunk).len(),
        line_type(lines(hunk)[i]) is None,
    ensures
        parsed(hunk, path) == Err::<DiffView, Error>(Error::Invalid),
{
    let body = lines(hunk).skip(1);
    assert(body[i - 1] == lines(hunk)[i]);
}

} // verus!
