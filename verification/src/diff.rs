//! A parsed hunk: reading one from its text, and the texts that it gives back.

use std::ops::Range;
use vstd::prelude::*;
use vstd::slice::slice_subrange;
use crate::context::lemma_hunk_coherent;
use crate::header::{header_starts, parse_header};
use crate::hunk::{
    context_runs, context_texts, cursor, is_change, lemma_side_lines_prefix,
    lemma_side_lines_push, line_pairs, line_type, open_run, parsed, part_of, side_lines,
    starts_with_marker, text_on, well_marked, DiffView, Extent, LineType, Side,
};
use crate::lines::{ends_with_newline, line_spans, lines, render};
use crate::text::{chars_of, string_of};

verus! {

/// The two failures of reading a hunk or a part of one.
#[derive(Debug, Clone, Copy, PartialEq, Eq, Structural)]
pub enum Error {
    /// The header line is missing or cannot be read.
    Parse,
    /// A body line has no known marker, a line number does not fit, or a part was
    /// asked for that the hunk does not hold.
    Invalid,
}

impl Error {
    /// What the error says, in words.
    pub open spec fn message_text(&self) -> Seq<char> {
        match self {
            Error::Parse => "Could not parse hunk"@,
            Error::Invalid => "Hunk invalid"@,
        }
    }

    /// The error in words.
    pub fn message(&self) -> (s: String)
        ensures
            s@ == self.message_text(),
    {
        match self {
            Error::Parse => "Could not parse hunk".to_owned(),
            Error::Invalid => "Hunk invalid".to_owned(),
        }
    }
}

/// A left line number and the right line number that goes with it.
#[derive(Debug)]
pub struct LinePair(u32, u32);

impl LinePair {
    /// The pair as mathematical integers, left first.
    pub closed spec fn view(&self) -> (int, int) {
        (self.0 as int, self.1 as int)
    }

    /// The line number on the left side.
    pub fn left(&self) -> (n: u32)
        ensures
            n == self.view().0,
    {
        self.0
    }

    /// The line number on the right side.
    pub fn right(&self) -> (n: u32)
        ensures
            n == self.view().1,
    {
        self.1
    }
}

/// The interval of line numbers that `r` stands for.
pub open spec fn extent_of(r: Range<u32>) -> Extent {
    Extent { start: r.start as int, end: r.end as int }
}

/// The intervals of line numbers that the ranges `v` stand for.
pub open spec fn extents(v: Seq<Range<u32>>) -> Seq<Extent> {
    Seq::new(v.len(), |i: int| extent_of(v[i]))
}

/// The pairs `v` as pairs of mathematical integers.
pub open spec fn pairs_of(v: Seq<LinePair>) -> Seq<(int, int)> {
    Seq::new(v.len(), |i: int| v[i].view())
}

/// The state of reading a body, line by line.
struct Scan {
    left_lines: Vec<String>,
    right_lines: Vec<String>,
    left_stop: u32,
    right_stop: u32,
    pairs: Vec<LinePair>,
    context: Vec<Range<u32>>,
    run: Option<u32>,
    after_change: bool,
}

impl Scan {
    /// Whether the state is what the lines `done` of a body give, for a hunk that
    /// starts at `left_start` and `right_start`.
    spec fn tracks(&self, done: Seq<Seq<char>>, left_start: u32, right_start: u32) -> bool {
        &&& well_marked(done)
        &&& self.left_lines.deep_view() == side_lines(done, Side::Left)
        &&& self.right_lines.deep_view() == side_lines(done, Side::Right)
        &&& self.left_stop == cursor(left_start as int, done, Side::Left)
        &&& self.right_stop == cursor(right_start as int, done, Side::Right)
        &&& pairs_of(self.pairs@) == line_pairs(done, left_start as int, right_start as int)
        &&& extents(self.context@) == context_runs(done, right_start as int)
        &&& match self.run {
            Some(start) => open_run(done, right_start as int) == Some(start as int)
                && right_start <= start <= self.right_stop,
            None => open_run(done, right_start as int) is None,
        }
        &&& self.after_change == (done.len() > 0 && is_change(done.last()))
        &&& forall|i: int|
            0 <= i < self.context@.len() ==> right_start <= (#[trigger] self.context@[i]).start
                <= self.context@[i].end <= self.right_stop
    }

    /// The state after the header.
    fn new(left_start: u32, right_start: u32) -> (scan: Scan)
        ensures
            scan.tracks(Seq::empty(), left_start, right_start),
    {
        let mut pairs: Vec<LinePair> = Vec::new();
        pairs.push(LinePair(left_start, right_start));
        let scan = Scan {
            left_lines: Vec::new(),
            right_lines: Vec::new(),
            left_stop: left_start,
            right_stop: right_start,
            pairs,
            context: Vec::new(),
            run: None,
            after_change: false,
        };
        proof {
            let done = Seq::<Seq<char>>::empty();
            assert(pairs_of(scan.pairs@) == line_pairs(
                done,
                left_start as int,
                right_start as int,
            ));
            assert(scan.right_lines.deep_view() == side_lines(done, Side::Right));
            assert(extents(scan.context@) == context_runs(done, right_start as int));
        }
        scan
    }

    /// Reads one more line of the body. Fails if the line has no known marker or
    /// takes a line number beyond 32 bits.
    fn step(
        &mut self,
        line: &[char],
        Ghost(done): Ghost<Seq<Seq<char>>>,
        Ghost(left_start): Ghost<u32>,
        Ghost(right_start): Ghost<u32>,
    ) -> (r: Result<(), Error>)
        requires
            old(self).tracks(done, left_start, right_start),
        ensures
            match r {
                Ok(_) => final(self).tracks(done.push(line@), left_start, right_start),
                Err(e) => e == Error::Invalid && (line_type(line@) is None || cursor(
                    left_start as int,
                    done.push(line@),
                    Side::Left,
                ) > u32::MAX || cursor(right_start as int, done.push(line@), Side::Right)
                    > u32::MAX),
            },
    {
        let ghost now = done.push(line@);
        proof {
            lemma_side_lines_push(done, line@, Side::Left);
            lemma_side_lines_push(done, line@, Side::Right);
            assert(now.drop_last() == done);
        }
        if line.len() == 0 {
            return Err(Error::Invalid);
        }
        let marker = line[0];
        let kind = if marker == ' ' {
            LineType::Context
        } else if marker == '-' {
            LineType::Deletion
        } else if marker == '+' {
            LineType::Addition
        } else {
            return Err(Error::Invalid);
        };
        let on_left = !matches!(kind, LineType::Addition);
        let on_right = !matches!(kind, LineType::Deletion);
        if (on_left && self.left_stop == u32::MAX) || (on_right && self.right_stop == u32::MAX) {
            return Err(Error::Invalid);
        }
        let right_before = self.right_stop;
        let rest = slice_subrange(line, 1, line.len());
        if on_left {
            let ghost before = self.left_lines.deep_view();
            let text = string_of(rest);
            self.left_lines.push(text);
            self.left_stop = self.left_stop + 1;
            assert(self.left_lines.deep_view() == before.push(rest@));
        }
        if on_right {
            let ghost before = self.right_lines.deep_view();
            let text = string_of(rest);
            self.right_lines.push(text);
            self.right_stop = self.right_stop + 1;
            assert(self.right_lines.deep_view() == before.push(rest@));
        }
        self.pairs.push(LinePair(self.left_stop, self.right_stop));
        proof {
            assert(now.take(now.len() as int) == now);
            assert forall|k: int| 0 <= k <= done.len() implies #[trigger] now.take(k)
                == done.take(k) by {}
            assert(pairs_of(self.pairs@) =~= line_pairs(
                now,
                left_start as int,
                right_start as int,
            )) by {
                let a = pairs_of(self.pairs@);
                let b = line_pairs(now, left_start as int, right_start as int);
                assert(line_pairs(done, left_start as int, right_start as int).len()
                    == done.len() + 1);
                assert forall|k: int| 0 <= k < a.len() implies a[k] == b[k] by {
                    if k <= done.len() {
                        assert(line_pairs(done, left_start as int, right_start as int)[k] == b[k]);
                    }
                }
            }
        }
        match kind {
            LineType::Context => {
                if self.after_change {
                    self.run = Some(right_before);
                }
                self.after_change = false;
            },
            _ => {
                let ghost before = extents(self.context@);
                match self.run {
                    Some(start) => {
                        self.context.push(start..right_before);
                        assert(extents(self.context@) == before.push(
                            Extent { start: start as int, end: right_before as int },
                        ));
                    },
                    None => {},
                }
                self.run = None;
                self.after_change = true;
            },
        }
        assert(well_marked(now));
        Ok(())
    }
}

/// The side of a review that a range of a comment speaks of: where it starts and
/// where it ends, left (`L`) or right (`R`).
#[derive(Debug, Clone, Copy, PartialEq, Eq, Structural)]
pub enum CommentSide {
    LL,
    LR,
    RL,
    RR,
}

/// One hunk of a unified diff, read from its text.
#[derive(Debug)]
pub struct Diff {
    path: String,
    original_range: Range<u32>,
    range: Range<u32>,
    left_lines: Vec<String>,
    right_lines: Vec<String>,
    context: Vec<Range<u32>>,
    associated_line_pairs: Vec<LinePair>,
    trailing_newline: bool,
}

impl View for Diff {
    type V = DiffView;

    closed spec fn view(&self) -> DiffView {
        DiffView {
            path: self.path@,
            original_range: extent_of(self.original_range),
            range: extent_of(self.range),
            left_lines: self.left_lines.deep_view(),
            right_lines: self.right_lines.deep_view(),
            context: extents(self.context@),
            line_pairs: pairs_of(self.associated_line_pairs@),
            trailing_newline: self.trailing_newline,
        }
    }
}

impl Diff {
    /// Every hunk is coherent.
    #[verifier::type_invariant]
    spec fn coherent(&self) -> bool {
        self@.coherent()
    }

    /// Reads the hunk `hunk` of the file `path`.
    pub fn from_only_hunk(hunk: &str, path: &str) -> (r: Result<Diff, Error>)
        ensures
            match r {
                Ok(diff) => parsed(hunk@, path@) == Ok::<DiffView, Error>(diff@),
                Err(e) => parsed(hunk@, path@) == Err::<DiffView, Error>(e),
            },
    {
        let chars = chars_of(hunk);
        let s = chars.as_slice();
        if !(s.len() >= 2 && s[0] == '@' && s[1] == '@') {
            return Err(Error::Parse);
        }
        let trailing_newline = s[s.len() - 1] == '\n';
        let spans = line_spans(s);
        let ghost all = lines(s@);
        let ghost body = all.skip(1);
        let (from, to) = spans[0];
        let (left_start, right_start) = match parse_header(slice_subrange(s, from, to)) {
            Some(starts) => starts,
            None => {
                return Err(Error::Parse);
            },
        };
        let mut scan = Scan::new(left_start, right_start);
        let mut k: usize = 1;
        assert(body.take(0) == Seq::<Seq<char>>::empty());
        while k < spans.len()
            invariant
                1 <= k <= spans@.len(),
                s@ == hunk@,
                starts_with_marker(hunk@),
                all == lines(s@),
                header_starts(all[0]) == Some((left_start, right_start)),
                body == all.skip(1),
                spans@.len() == all.len(),
                forall|i: int|
                    0 <= i < spans@.len() ==> {
                        &&& (#[trigger] spans@[i]).0 <= spans@[i].1 <= s@.len()
                        &&& s@.subrange(spans@[i].0 as int, spans@[i].1 as int) == all[i]
                    },
                scan.tracks(body.take(k - 1), left_start, right_start),
            decreases spans@.len() - k,
        {
            let (from, to) = spans[k];
            let line = slice_subrange(s, from, to);
            let ghost done = body.take(k - 1);
            assert(body.take(k as int) == done.push(line@));
            match scan.step(line, Ghost(done), Ghost(left_start), Ghost(right_start)) {
                Ok(_) => {},
                Err(e) => {
                    proof {
                        lemma_side_lines_prefix(body, k as int, Side::Left);
                        lemma_side_lines_prefix(body, k as int, Side::Right);
                    }
                    return Err(e);
                },
            }
            k += 1;
        }
        let path = path.to_owned();
        proof {
            assert(body.take(k - 1) == body);
            lemma_hunk_coherent(
                path@,
                left_start as int,
                right_start as int,
                body,
                ends_with_newline(hunk@),
            );
        }
        let diff = Diff {
            path,
            original_range: left_start..scan.left_stop,
            range: right_start..scan.right_stop,
            left_lines: scan.left_lines,
            right_lines: scan.right_lines,
            context: scan.context,
            associated_line_pairs: scan.pairs,
            trailing_newline,
        };
        Ok(diff)
    }

    /// The range of line numbers that the hunk covers on the left side.
    pub fn original_line_range(&self) -> (r: Range<u32>)
        ensures
            extent_of(r) == self@.original_range,
            self@.coherent(),
    {
        proof {
            use_type_invariant(self);
        }
        self.original_range.start..self.original_range.end
    }

    /// The range of line numbers that the hunk covers on the right side.
    pub fn line_range(&self) -> (r: Range<u32>)
        ensures
            extent_of(r) == self@.range,
            self@.coherent(),
    {
        proof {
            use_type_invariant(self);
        }
        self.range.start..self.range.end
    }

    /// The text of the right side of the hunk.
    pub fn text(&self) -> (out: String)
        ensures
            out@ == text_on(self@, Side::Right),
    {
        let n = self.right_lines.len();
        assert(self.right_lines.deep_view().subrange(0, n as int) == self.right_lines.deep_view());
        render(&self.right_lines, 0, n, self.trailing_newline)
    }

    /// The text of the left side of the hunk.
    pub fn original_text(&self) -> (out: String)
        ensures
            out@ == text_on(self@, Side::Left),
    {
        let n = self.left_lines.len();
        assert(self.left_lines.deep_view().subrange(0, n as int) == self.left_lines.deep_view());
        render(&self.left_lines, 0, n, self.trailing_newline)
    }

    /// The text of the lines that `comment` covers on `side`.
    pub fn text_part(&self, comment: Range<u32>, side: CommentSide) -> (r: Result<String, Error>)
        ensures
            match r {
                Ok(out) => part_of(self@, extent_of(comment), side) == Ok::<Seq<char>, Error>(out@),
                Err(e) => part_of(self@, extent_of(comment), side) == Err::<Seq<char>, Error>(e),
            },
    {
        proof {
            use_type_invariant(self);
        }
        let last = self.associated_line_pairs.len() - 1;
        let (lines, text_start, text_end) = match side {
            CommentSide::LL => (
                &self.left_lines,
                self.associated_line_pairs[0].0,
                self.associated_line_pairs[last].0,
            ),
            CommentSide::RR => (
                &self.right_lines,
                self.associated_line_pairs[0].1,
                self.associated_line_pairs[last].1,
            ),
            _ => {
                return Err(Error::Invalid);
            },
        };
        if comment.start < text_start || comment.end > text_end {
            return Err(Error::Invalid);
        }
        if comment.end <= comment.start {
            return Ok(String::new());
        }
        let from = (comment.start - text_start) as usize;
        let to = (comment.end - text_start) as usize;
        Ok(render(lines, from, to, self.trailing_newline))
    }

    /// The texts of the runs of context between the changes of the hunk, or
    /// `None` if there is no such run. Every run is given, whatever
    /// `_ignore_starting` is.
    pub fn get_context(&self, _ignore_starting: Option<u32>) -> (r: Option<Vec<String>>)
        ensures
            match r {
                Some(texts) => self@.context.len() > 0 && texts.deep_view() == context_texts(
                    self@,
                ),
                None => self@.context.len() == 0,
            },
    {
        proof {
            use_type_invariant(self);
        }
        if self.context.len() == 0 {
            return None;
        }
        let mut res: Vec<String> = Vec::new();
        let mut i: usize = 0;
        assert forall|j: int| 0 <= j < self.context@.len() implies self.range.start <= (
        #[trigger] self.context@[j]).start <= self.context@[j].end <= self.range.end by {
            assert(self@.context[j] == extent_of(self.context@[j]));
        }
        while i < self.context.len()
            invariant
                i <= self.context@.len(),
                self.right_lines@.len() == self.range.end - self.range.start,
                forall|j: int|
                    0 <= j < self.context@.len() ==> self.range.start <= (
                    #[trigger] self.context@[j]).start <= self.context@[j].end <= self.range.end,
                res.deep_view() == context_texts(self@).take(i as int),
            decreases self.context@.len() - i,
        {
            let from = (self.context[i].start - self.range.start) as usize;
            let to = (self.context[i].end - self.range.start) as usize;
            let ghost before = res.deep_view();
            let text = render(&self.right_lines, from, to, true);
            res.push(text);
            assert(res.deep_view() == before.push(text@));
            i += 1;
        }
        Some(res)
    }

    /// The file that the hunk belongs to.
    pub fn path(&self) -> (r: &str)
        ensures
            r@ == self@.path,
    {
        self.path.as_str()
    }

    /// The lines of the left side, without their markers.
    pub fn left_lines(&self) -> (r: &Vec<String>)
        ensures
            r.deep_view() == self@.left_lines,
    {
        &self.left_lines
    }

    /// The lines of the right side, without their markers.
    pub fn right_lines(&self) -> (r: &Vec<String>)
        ensures
            r.deep_view() == self@.right_lines,
    {
        &self.right_lines
    }

    /// The runs of context between the changes, as ranges of right line numbers.
    pub fn context(&self) -> (r: &Vec<Range<u32>>)
        ensures
            extents(r@) == self@.context,
    {
        &self.context
    }

    /// The pairs of line numbers reached after the header and after each line of
    /// the body.
    pub fn associated_line_pairs(&self) -> (r: &Vec<LinePair>)
        ensures
            pairs_of(r@) == self@.line_pairs,
    {
        &self.associated_line_pairs
    }

    /// Whether the text of the hunk ended in a line separator.
    pub fn trailing_newline(&self) -> (r: bool)
        ensures
            r == self@.trailing_newline,
    {
        self.trailing_newline
    }
}

} // verus!
