//! The header line of a hunk: `@@ -<left>[,<count>] +<right>[,<count>] @@`, with
//! anything behind the closing marker.
//!
//! Only the two starting line numbers are read. The counts are not: the extent of
//! a hunk is what its body holds.

use vstd::prelude::*;
use vstd::slice::slice_subrange;
use crate::number::{number, parse_number};
use crate::text::{
    index_of, leading, lemma_leading_is, position, skip_leading, skip_trailing, without_leading,
    without_trailing,
};

verus! {

/// The predicate of the characters that a number token may hold: all but the
/// comma, which starts a count, and the space, which ends a range.
pub open spec fn in_token() -> spec_fn(char) -> bool {
    |c: char| c != ',' && c != ' '
}

/// The token at the start of `s`: what comes before the first comma or space.
pub open spec fn token(s: Seq<char>) -> Seq<char> {
    s.take(leading(s, in_token()) as int)
}

/// What is left of a header line when the markers and the spaces around its
/// fields are taken off: the `@` at its start, the spaces behind them, and then
/// the spaces at its end and the `@` before those.
pub open spec fn header_fields(line: Seq<char>) -> Seq<char> {
    without_trailing(without_trailing(without_leading(without_leading(line, '@'), ' '), ' '), '@')
}

/// The line numbers at which the two sides of the hunk start, as the header line
/// `line` gives them, or `None` if it gives none.
///
/// The left number is the token behind the first `-`, which has to come before
/// the first space. The right number is the token behind the first `+`, spaces
/// skipped.
pub open spec fn header_starts(line: Seq<char>) -> Option<(u32, u32)> {
    let data = header_fields(line);
    match (index_of(data, '-'), index_of(data, ' '), index_of(data, '+')) {
        (Some(minus), Some(space), Some(plus)) => {
            if minus < space {
                match (
                    number(token(data.skip(minus + 1))),
                    number(token(without_leading(data.skip(plus + 1), ' '))),
                ) {
                    (Some(left), Some(right)) => Some((left, right)),
                    _ => None,
                }
            } else {
                None
            }
        },
        _ => None,
    }
}

/// The token at the start of `s`.
fn token_of<'a>(s: &'a [char]) -> (r: &'a [char])
    ensures
        r@ == token(s@),
{
    let mut i: usize = 0;
    while i < s.len() && s[i] != ',' && s[i] != ' '
        invariant
            i <= s.len(),
            forall|j: int| 0 <= j < i ==> in_token()(#[trigger] s@[j]),
        decreases s.len() - i,
    {
        i += 1;
    }
    proof {
        lemma_leading_is(s@, in_token(), i as int);
    }
    slice_subrange(s, 0, i)
}

/// Reads the two starting line numbers off the header line `line`.
pub fn parse_header(line: &[char]) -> (r: Option<(u32, u32)>)
    ensures
        r == header_starts(line@),
{
    let data = skip_trailing(skip_trailing(skip_leading(skip_leading(line, '@'), ' '), ' '), '@');
    let minus = match position(data, '-') {
        Some(i) => i,
        None => {
            return None;
        },
    };
    let space = match position(data, ' ') {
        Some(i) => i,
        None => {
            return None;
        },
    };
    let plus = match position(data, '+') {
        Some(i) => i,
        None => {
            return None;
        },
    };
    if minus >= space {
        return None;
    }
    let left = parse_number(token_of(slice_subrange(data, minus + 1, data.len())));
    let right = parse_number(
        token_of(skip_leading(slice_subrange(data, plus + 1, data.len()), ' ')),
    );
    match (left, right) {
        (Some(l), Some(r)) => Some((l, r)),
        _ => None,
    }
}

} // verus!
