//! What the runs of context of a hunk are: exactly the stretches of context lines
//! that stand between two changes.

use vstd::prelude::*;
use crate::lines::lines;
use crate::hunk::{
    context_runs, cursor, hunk_of, is_change, is_context, lemma_cursor_monotone,
    lemma_line_pairs_order, lemma_side_lines_push, open_run, parsed, Extent, Side,
};

verus! {

/// Whether the lines `a..b` of `body` are context lines that reach to the end of
/// `body` and have a change right before them.
pub open spec fn is_open_run(body: Seq<Seq<char>>, a: int) -> bool {
    &&& 1 <= a < body.len()
    &&& is_change(body[a - 1])
    &&& forall|i: int| a <= i < body.len() ==> is_context(#[trigger] body[i])
}

/// Whether the lines `a..b` of `body` are context lines with a change right
/// before them and a change right behind them.
pub open spec fn is_inner_run(body: Seq<Seq<char>>, a: int, b: int) -> bool {
    &&& 1 <= a < b < body.len()
    &&& is_change(body[a - 1])
    &&& is_change(body[b])
    &&& forall|i: int| a <= i < b ==> is_context(#[trigger] body[i])
}

/// The right line numbers of the lines `a..b` of `body`.
pub open spec fn run_extent(body: Seq<Seq<char>>, right_start: int, a: int, b: int) -> Extent {
    Extent {
        start: cursor(right_start, body.take(a), Side::Right),
        end: cursor(right_start, body.take(b), Side::Right),
    }
}

/// Whether `run` covers a stretch of context lines of `body` with a change right
/// before it and a change right behind it.
pub open spec fn between_changes(body: Seq<Seq<char>>, right_start: int, run: Extent) -> bool {
    exists|a: int, b: int| #[trigger]
        is_inner_run(body, a, b) && run == run_extent(body, right_start, a, b)
}

/// Along context lines the line numbers of both sides go up by one for each
/// line.
pub proof fn lemma_cursor_over_context(
    start: int,
    body: Seq<Seq<char>>,
    a: int,
    b: int,
    side: Side,
)
    requires
        0 <= a <= b <= body.len(),
        forall|i: int| a <= i < b ==> is_context(#[trigger] body[i]),
    ensures
        cursor(start, body.take(b), side) == cursor(start, body.take(a), side) + (b - a),
    decreases b - a,
{
    if a < b {
        lemma_cursor_over_context(start, body, a, b - 1, side);
        assert(body.take(b) == body.take(b - 1).push(body[b - 1]));
        lemma_side_lines_push(body.take(b - 1), body[b - 1], side);
    }
}

/// The run that is open at the end of a body is the stretch of context lines
/// that ends the body, if a change stands right before that stretch.
pub proof fn lemma_open_run(body: Seq<Seq<char>>, right_start: int)
    ensures
        match open_run(body, right_start) {
            Some(start) => exists|a: int| #[trigger]
                is_open_run(body, a) && start == cursor(right_start, body.take(a), Side::Right),
            None => forall|a: int| !#[trigger] is_open_run(body, a),
        },
    decreases body.len(),
{
    if body.len() > 0 && is_context(body.last()) {
        let before = body.drop_last();
        let n = before.len() as int;
        if n > 0 && is_change(before.last()) {
            assert(is_open_run(body, n));
        } else {
            lemma_open_run(before, right_start);
            match open_run(before, right_start) {
                Some(start) => {
                    let a = choose|a: int| #[trigger]
                        is_open_run(before, a) && start == cursor(
                            right_start,
                            before.take(a),
                            Side::Right,
                        );
                    assert(body.take(a) == before.take(a));
                    assert forall|i: int| a <= i < body.len() implies is_context(
                        #[trigger] body[i],
                    ) by {
                        if i < n {
                            assert(body[i] == before[i]);
                        }
                    }
                    assert(is_open_run(body, a));
                },
                None => {
                    assert forall|a: int| !#[trigger] is_open_run(body, a) by {
                        if is_open_run(body, a) {
                            if a < n {
                                assert(is_open_run(before, a));
                            }
                        }
                    }
                },
            }
        }
    }
}

/// A body ends in at most one open run.
proof fn lemma_open_run_unique(body: Seq<Seq<char>>, a: int, b: int)
    requires
        is_open_run(body, a),
        is_open_run(body, b),
    ensures
        a == b,
{
}

/// A run between two changes of a body is one of the longer body too, with the
/// same line numbers.
proof fn lemma_inner_run_extends(
    before: Seq<Seq<char>>,
    line: Seq<char>,
    right_start: int,
    a: int,
    b: int,
)
    requires
        is_inner_run(before, a, b),
    ensures
        is_inner_run(before.push(line), a, b),
        run_extent(before.push(line), right_start, a, b) == run_extent(before, right_start, a, b),
{
    let body = before.push(line);
    assert(body.take(a) == before.take(a));
    assert(body.take(b) == before.take(b));
}

/// The runs of context of a body are exactly its stretches of context lines
/// between two changes: each run is such a stretch, each such stretch is a run,
/// and the runs come in the order of the body, none empty and none touching the
/// next. Context lines before the first change or behind the last are in no
/// run.
pub proof fn lemma_context_runs(body: Seq<Seq<char>>, right_start: int)
    ensures
        forall|k: int|
            0 <= k < context_runs(body, right_start).len() ==> between_changes(
                body,
                right_start,
                #[trigger] context_runs(body, right_start)[k],
            ),
        forall|a: int, b: int| #[trigger]
            is_inner_run(body, a, b) ==> context_runs(body, right_start).contains(
                run_extent(body, right_start, a, b),
            ),
        forall|k: int|
            0 <= k < context_runs(body, right_start).len() ==> right_start <= (
            #[trigger] context_runs(body, right_start)[k]).start < context_runs(
                body,
                right_start,
            )[k].end <= cursor(right_start, body, Side::Right),
        forall|j: int, k: int|
            0 <= j < k < context_runs(body, right_start).len() ==> (#[trigger] context_runs(
                body,
                right_start,
            )[j]).end <= (#[trigger] context_runs(body, right_start)[k]).start,
    decreases body.len(),
{
    let runs = context_runs(body, right_start);
    if body.len() > 0 {
        let before = body.drop_last();
        let line = body.last();
        let n = before.len() as int;
        let old_runs = context_runs(before, right_start);
        assert(body == before.push(line));
        lemma_context_runs(before, right_start);
        lemma_open_run(before, right_start);
        lemma_cursor_monotone(right_start, body, n, n + 1, Side::Right);
        let closes = is_change(line) && open_run(before, right_start) is Some;
        // where the run that this line closes starts, if it closes one
        let a_new = if closes {
            choose|a: int| #[trigger]
                is_open_run(before, a) && open_run(before, right_start) == Some(
                    cursor(right_start, before.take(a), Side::Right),
                )
        } else {
            0
        };
        if closes {
            assert(body.take(a_new) == before.take(a_new));
            lemma_cursor_over_context(right_start, body, a_new, n, Side::Right);
            lemma_cursor_monotone(right_start, body, 0, a_new, Side::Right);
        }
        assert forall|k: int| 0 <= k < runs.len() implies between_changes(
            body,
            right_start,
            #[trigger] runs[k],
        ) by {
            if k < old_runs.len() {
                let (a, b) = choose|a: int, b: int| #[trigger]
                    is_inner_run(before, a, b) && old_runs[k] == run_extent(
                        before,
                        right_start,
                        a,
                        b,
                    );
                lemma_inner_run_extends(before, line, right_start, a, b);
            } else {
                assert(is_inner_run(body, a_new, n));
            }
        }
        assert forall|a: int, b: int| #[trigger] is_inner_run(body, a, b) implies runs.contains(
            run_extent(body, right_start, a, b),
        ) by {
            if b < n {
                assert(is_inner_run(before, a, b));
                lemma_inner_run_extends(before, line, right_start, a, b);
                let e = run_extent(body, right_start, a, b);
                let k = choose|k: int| 0 <= k < old_runs.len() && old_runs[k] == e;
                assert(runs[k] == e);
            } else {
                assert(is_open_run(before, a));
                lemma_open_run_unique(before, a, a_new);
                assert(runs[runs.len() - 1] == run_extent(body, right_start, a, b));
            }
        }
        assert forall|j: int, k: int| 0 <= j < k < runs.len() implies (#[trigger] runs[j]).end <= (
        #[trigger] runs[k]).start by {
            if k >= old_runs.len() {
                let (a, b) = choose|a: int, b: int| #[trigger]
                    is_inner_run(before, a, b) && old_runs[j] == run_extent(
                        before,
                        right_start,
                        a,
                        b,
                    );
                lemma_cursor_monotone(right_start, before, b, a_new, Side::Right);
            }
        }
    }
}

/// The runs of context of a parsed hunk are exactly the stretches of context
/// lines between two changes of its body. They lie in the right range of the
/// hunk and come in ascending order, none empty and none overlapping another.
pub proof fn lemma_parsed_context(hunk: Seq<char>, path: Seq<char>)
    requires
        parsed(hunk, path) is Ok,
    ensures
        ({
            let diff = parsed(hunk, path)->Ok_0;
            let body = lines(hunk).skip(1);
            &&& forall|k: int|
                0 <= k < diff.context.len() ==> between_changes(
                    body,
                    diff.range.start,
                    #[trigger] diff.context[k],
                )
            &&& forall|a: int, b: int| #[trigger]
                is_inner_run(body, a, b) ==> diff.context.contains(
                    run_extent(body, diff.range.start, a, b),
                )
            &&& forall|k: int|
                0 <= k < diff.context.len() ==> diff.range.start <= (
                #[trigger] diff.context[k]).start < diff.context[k].end <= diff.range.end
            &&& forall|j: int, k: int|
                0 <= j < k < diff.context.len() ==> (#[trigger] diff.context[j]).end <= (
                #[trigger] diff.context[k]).start
        }),
{
    let diff = parsed(hunk, path)->Ok_0;
    lemma_context_runs(lines(hunk).skip(1), diff.range.start);
}

/// The hunk that a body makes is coherent.
pub proof fn lemma_hunk_coherent(
    path: Seq<char>,
    left_start: int,
    right_start: int,
    body: Seq<Seq<char>>,
    trailing_newline: bool,
)
    ensures
        hunk_of(path, left_start, right_start, body, trailing_newline).coherent(),
{
    lemma_context_runs(body, right_start);
    lemma_line_pairs_order(body, left_start, right_start);
}

/// Every hunk that is read from a text is coherent.
pub proof fn lemma_parsed_coherent(hunk: Seq<char>, path: Seq<char>)
    requires
        parsed(hunk, path) is Ok,
    ensures
        parsed(hunk, path)->Ok_0.coherent(),
{
    let diff = parsed(hunk, path)->Ok_0;
    lemma_hunk_coherent(
        path,
        diff.original_range.start,
        diff.range.start,
        lines(hunk).skip(1),
        diff.trailing_newline,
    );
}

} // verus!
