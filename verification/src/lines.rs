//! Lines of a text: splitting a text at its line separators and joining lines
//! back into a text.

use vstd::prelude::*;
use vstd::string::StringExecFns;
use crate::text::{leading, lemma_leading_bounds, lemma_leading_is, not_char};

verus! {

/// The lines of `s`: the stretches between line separators. A separator at the
/// very end of the text ends the last line and starts no further one, so the
/// empty text has no line.
pub open spec fn lines(s: Seq<char>) -> Seq<Seq<char>>
    decreases s.len(),
{
    if s.len() == 0 {
        Seq::empty()
    } else {
        let n = leading(s, not_char('\n')) as int;
        if n < s.len() {
            seq![s.take(n)] + lines(s.skip(n + 1))
        } else {
            seq![s]
        }
    }
}

/// The lines of `ls` written one after the other, each followed by a line
/// separator.
pub open spec fn joined(ls: Seq<Seq<char>>) -> Seq<char>
    decreases ls.len(),
{
    if ls.len() == 0 {
        Seq::empty()
    } else {
        joined(ls.drop_last()) + ls.last().push('\n')
    }
}

/// The text of the lines `ls`: joined, and without the separator behind the last
/// line unless `trailing_newline` asks for it.
pub open spec fn rendered(ls: Seq<Seq<char>>, trailing_newline: bool) -> Seq<char> {
    if trailing_newline || ls.len() == 0 {
        joined(ls)
    } else {
        joined(ls.drop_last()) + ls.last()
    }
}

/// Where the line that starts at `from` ends: at the next separator or at the
/// end of the text.
fn line_end(s: &[char], from: usize) -> (end: usize)
    requires
        from <= s@.len(),
    ensures
        end == from + leading(s@.skip(from as int), not_char('\n')),
        end <= s@.len(),
{
    let mut e: usize = from;
    while e < s.len() && s[e] != '\n'
        invariant
            from <= e <= s.len(),
            forall|j: int| from <= j < e ==> not_char('\n')(#[trigger] s@[j]),
        decreases s.len() - e,
    {
        e += 1;
    }
    proof {
        let t = s@.skip(from as int);
        lemma_leading_is(t, not_char('\n'), e - from);
    }
    e
}

/// Splits `s` into its lines, each given by where it starts and where it ends in
/// `s` (the separator is part of no line).
pub fn line_spans(s: &[char]) -> (spans: Vec<(usize, usize)>)
    ensures
        spans@.len() == lines(s@).len(),
        forall|k: int|
            0 <= k < spans@.len() ==> {
                &&& (#[trigger] spans@[k]).0 <= spans@[k].1 <= s@.len()
                &&& s@.subrange(spans@[k].0 as int, spans@[k].1 as int) == lines(s@)[k]
            },
{
    let mut spans: Vec<(usize, usize)> = Vec::new();
    let mut pos: usize = 0;
    let ghost mut done: Seq<Seq<char>> = Seq::empty();
    assert(s@.skip(0) == s@);
    while pos < s.len()
        invariant
            pos <= s.len(),
            done.len() == spans@.len(),
            lines(s@) == done + lines(s@.skip(pos as int)),
            forall|k: int|
                0 <= k < spans@.len() ==> {
                    &&& (#[trigger] spans@[k]).0 <= spans@[k].1 <= s@.len()
                    &&& s@.subrange(spans@[k].0 as int, spans@[k].1 as int) == done[k]
                },
        decreases s.len() - pos,
    {
        let end = line_end(s, pos);
        let ghost rest = s@.skip(pos as int);
        let ghost line = s@.subrange(pos as int, end as int);
        proof {
            if end < s.len() {
                assert(rest.take(end - pos) == line);
                assert(rest.skip(end - pos + 1) == s@.skip(end + 1));
            }
        }
        spans.push((pos, end));
        proof {
            done = done.push(line);
        }
        pos = if end < s.len() { end + 1 } else { end };
    }
    spans
}

/// Appends the lines `lines[from..to]` to a new string, each followed by a line
/// separator, the last one only if `trailing_newline` is set.
pub fn render(lines: &Vec<String>, from: usize, to: usize, trailing_newline: bool) -> (out: String)
    requires
        from <= to <= lines@.len(),
    ensures
        out@ == rendered(lines.deep_view().subrange(from as int, to as int), trailing_newline),
{
    let mut out = String::new();
    let mut i: usize = from;
    let ghost part = lines.deep_view().subrange(from as int, to as int);
    while i < to
        invariant
            from <= i <= to <= lines@.len(),
            part == lines.deep_view().subrange(from as int, to as int),
            out@ == rendered(part.take(i - from), trailing_newline || i < to),
        decreases to - i,
    {
        let ghost before = part.take(i - from);
        let ghost now = part.take(i - from + 1);
        assert(now.drop_last() == before);
        out.append(lines[i].as_str());
        if trailing_newline || i + 1 < to {
            out.push('\n');
        }
        i += 1;
    }
    assert(part.take(to - from) == part);
    out
}

/// Whether no line of `ls` holds a line separator.
pub open spec fn separator_free(ls: Seq<Seq<char>>) -> bool {
    forall|i: int, j: int| 0 <= i < ls.len() && 0 <= j < ls[i].len() ==> ls[i][j] != '\n'
}

/// Whether `s` ends in a line separator.
pub open spec fn ends_with_newline(s: Seq<char>) -> bool {
    s.len() > 0 && s.last() == '\n'
}

/// No line of a text holds a line separator.
pub proof fn lemma_lines_separator_free(s: Seq<char>)
    ensures
        separator_free(lines(s)),
    decreases s.len(),
{
    if s.len() > 0 {
        let n = leading(s, not_char('\n')) as int;
        lemma_leading_bounds(s, not_char('\n'));
        if n < s.len() {
            lemma_lines_separator_free(s.skip(n + 1));
        }
    }
}

/// Joined lines start with the first line and its separator.
proof fn lemma_joined_first(ls: Seq<Seq<char>>)
    requires
        ls.len() > 0,
    ensures
        joined(ls) == ls[0].push('\n') + joined(ls.skip(1)),
    decreases ls.len(),
{
    if ls.len() == 1 {
        assert(joined(ls.drop_last()) == Seq::<char>::empty());
    } else {
        lemma_joined_first(ls.drop_last());
        assert(ls.skip(1).drop_last() == ls.drop_last().skip(1));
    }
}

/// The lines of joined lines that a text follows are those lines and the lines of
/// the text.
pub proof fn lemma_lines_of_joined_then(ls: Seq<Seq<char>>, then: Seq<char>)
    requires
        separator_free(ls),
    ensures
        lines(joined(ls) + then) == ls + lines(then),
    decreases ls.len(),
{
    if ls.len() > 0 {
        let first = ls[0];
        let rest = joined(ls.skip(1)) + then;
        let s = joined(ls) + then;
        lemma_joined_first(ls);
        lemma_leading_is(s, not_char('\n'), first.len() as int);
        assert(s.take(first.len() as int) == first);
        assert(s.skip(first.len() as int + 1) == rest);
        lemma_lines_of_joined_then(ls.skip(1), then);
    }
}

/// Splitting the text of lines gives the lines back, unless the last line is
/// empty and has no separator behind it: such a line leaves no trace in the text.
pub proof fn lemma_lines_of_rendered(ls: Seq<Seq<char>>, trailing_newline: bool)
    requires
        separator_free(ls),
        trailing_newline || ls.len() == 0 || ls.last().len() > 0,
    ensures
        lines(rendered(ls, trailing_newline)) == ls,
{
    if trailing_newline || ls.len() == 0 {
        lemma_lines_of_joined_then(ls, Seq::empty());
    } else {
        let last = ls.last();
        lemma_lines_of_joined_then(ls.drop_last(), last);
        lemma_leading_is(last, not_char('\n'), last.len() as int);
    }
}

/// The text of lines is the joined lines, without the last separator where none
/// is asked for. It ends in a separator if one is asked for, and does not if none
/// is asked for and the last line is not empty.
pub proof fn lemma_rendered_end(ls: Seq<Seq<char>>, trailing_newline: bool)
    requires
        ls.len() > 0,
        separator_free(ls),
    ensures
        trailing_newline ==> rendered(ls, trailing_newline) == joined(ls),
        !trailing_newline ==> rendered(ls, trailing_newline).push('\n') == joined(ls),
        trailing_newline ==> ends_with_newline(rendered(ls, trailing_newline)),
        !trailing_newline && ls.last().len() > 0 ==> !ends_with_newline(
            rendered(ls, trailing_newline),
        ),
{
}

/// The text of two or more lines starts with the first line and its separator.
proof fn lemma_rendered_first(ls: Seq<Seq<char>>, trailing_newline: bool)
    requires
        ls.len() >= 2,
    ensures
        rendered(ls, trailing_newline) == ls[0].push('\n') + rendered(
            ls.skip(1),
            trailing_newline,
        ),
{
    if trailing_newline {
        lemma_joined_first(ls);
    } else {
        lemma_joined_first(ls.drop_last());
        assert(ls.skip(1).drop_last() == ls.drop_last().skip(1));
        assert(rendered(ls, trailing_newline) =~= ls[0].push('\n') + rendered(
            ls.skip(1),
            trailing_newline,
        ));
    }
}

/// A text is the text of its lines: nothing is lost in splitting it.
pub proof fn lemma_rendered_lines(s: Seq<char>)
    ensures
        rendered(lines(s), ends_with_newline(s)) == s,
    decreases s.len(),
{
    if s.len() > 0 {
        let n = leading(s, not_char('\n')) as int;
        lemma_leading_bounds(s, not_char('\n'));
        if n < s.len() {
            let rest = s.skip(n + 1);
            let ls = lines(s);
            assert(ls.skip(1) == lines(rest));
            if rest.len() == 0 {
                assert(joined(ls.drop_last()) == Seq::<char>::empty());
            } else {
                lemma_rendered_lines(rest);
                assert(ends_with_newline(rest) == ends_with_newline(s));
                lemma_rendered_first(ls, ends_with_newline(s));
            }
        }
    }
}

} // verus!
