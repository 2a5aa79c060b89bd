//! Character-level helpers on which the hunk parser and the resolver are built.
//!
//! Text is modelled as `Seq<char>`. Executable code works on `&[char]`, so that a
//! part of a text is a sub-slice and its model is a `subrange` of the whole.

use vstd::prelude::*;
use vstd::slice::slice_subrange;

verus! {

/// Taken on trust, not proved: what `String::push` of the standard library does.
/// The call appends `c` to the string and changes nothing else, so the
/// characters of the string are afterwards those from before, followed by `c`.
pub assume_specification[ String::push ](s: &mut String, c: char)
    ensures
        final(s)@ == old(s)@.push(c),
;

/// The predicate that holds of `c` alone.
pub open spec fn is_char(c: char) -> spec_fn(char) -> bool {
    |x: char| x == c
}

/// The predicate that holds of every character but `c`.
pub open spec fn not_char(c: char) -> spec_fn(char) -> bool {
    |x: char| x != c
}

/// How many characters at the start of `s` satisfy `keep`, up to the first that
/// does not.
pub open spec fn leading(s: Seq<char>, keep: spec_fn(char) -> bool) -> nat
    decreases s.len(),
{
    if s.len() > 0 && keep(s[0]) {
        1 + leading(s.skip(1), keep)
    } else {
        0
    }
}

/// How many characters at the end of `s` satisfy `keep`, back to the last that
/// does not.
pub open spec fn trailing(s: Seq<char>, keep: spec_fn(char) -> bool) -> nat
    decreases s.len(),
{
    if s.len() > 0 && keep(s.last()) {
        1 + trailing(s.drop_last(), keep)
    } else {
        0
    }
}

/// `leading` is the length of the longest prefix whose characters all satisfy
/// `keep`.
pub proof fn lemma_leading_is(s: Seq<char>, keep: spec_fn(char) -> bool, n: int)
    requires
        0 <= n <= s.len(),
        forall|j: int| 0 <= j < n ==> keep(#[trigger] s[j]),
        n < s.len() ==> !keep(s[n]),
    ensures
        leading(s, keep) == n,
    decreases n,
{
    if n > 0 {
        lemma_leading_is(s.skip(1), keep, n - 1);
    }
}

/// What `leading` satisfies: the prefix it measures is kept, and the character
/// behind it, if any, is not.
pub proof fn lemma_leading_bounds(s: Seq<char>, keep: spec_fn(char) -> bool)
    ensures
        leading(s, keep) <= s.len(),
        forall|j: int| 0 <= j < leading(s, keep) ==> keep(#[trigger] s[j]),
        leading(s, keep) < s.len() ==> !keep(s[leading(s, keep) as int]),
    decreases s.len(),
{
    if s.len() > 0 && keep(s[0]) {
        let t = s.skip(1);
        lemma_leading_bounds(t, keep);
        assert forall|j: int| 0 <= j < leading(s, keep) implies keep(#[trigger] s[j]) by {
            if j > 0 {
                assert(s[j] == t[j - 1]);
            }
        }
    }
}

/// `trailing` is the length of the longest suffix whose characters all satisfy
/// `keep`.
pub proof fn lemma_trailing_is(s: Seq<char>, keep: spec_fn(char) -> bool, n: int)
    requires
        0 <= n <= s.len(),
        forall|j: int| s.len() - n <= j < s.len() ==> keep(#[trigger] s[j]),
        n < s.len() ==> !keep(s[s.len() - n - 1]),
    ensures
        trailing(s, keep) == n,
    decreases n,
{
    if n > 0 {
        lemma_trailing_is(s.drop_last(), keep, n - 1);
    }
}

/// `s` without the characters equal to `c` at its start.
pub open spec fn without_leading(s: Seq<char>, c: char) -> Seq<char> {
    s.skip(leading(s, is_char(c)) as int)
}

/// `s` without the characters equal to `c` at its end.
pub open spec fn without_trailing(s: Seq<char>, c: char) -> Seq<char> {
    s.take(s.len() - trailing(s, is_char(c)))
}

/// The characters of `s`, in order.
pub fn chars_of(s: &str) -> (v: Vec<char>)
    ensures
        v@ == s@,
{
    let mut v: Vec<char> = Vec::new();
    for c in it: s.chars()
        invariant
            v@ == it.seq().take(it.index() as int),
            it.seq() == s@,
    {
        v.push(c);
    }
    v
}

/// The string made of the characters of `chars`, in order.
pub fn string_of(chars: &[char]) -> (s: String)
    ensures
        s@ == chars@,
{
    let mut s = String::new();
    let mut i: usize = 0;
    while i < chars.len()
        invariant
            i <= chars.len(),
            s@ == chars@.take(i as int),
        decreases chars.len() - i,
    {
        s.push(chars[i]);
        i += 1;
    }
    s
}

/// Drops the characters equal to `c` at the start of `s`.
pub fn skip_leading<'a>(s: &'a [char], c: char) -> (r: &'a [char])
    ensures
        r@ == without_leading(s@, c),
{
    let mut i: usize = 0;
    while i < s.len() && s[i] == c
        invariant
            i <= s.len(),
            forall|j: int| 0 <= j < i ==> is_char(c)(#[trigger] s@[j]),
        decreases s.len() - i,
    {
        i += 1;
    }
    proof {
        lemma_leading_is(s@, is_char(c), i as int);
    }
    slice_subrange(s, i, s.len())
}

/// Drops the characters equal to `c` at the end of `s`.
pub fn skip_trailing<'a>(s: &'a [char], c: char) -> (r: &'a [char])
    ensures
        r@ == without_trailing(s@, c),
{
    let mut n: usize = s.len();
    while n > 0 && s[n - 1] == c
        invariant
            n <= s.len(),
            forall|j: int| n <= j < s.len() ==> is_char(c)(#[trigger] s@[j]),
        decreases n,
    {
        n -= 1;
    }
    proof {
        lemma_trailing_is(s@, is_char(c), s.len() - n);
    }
    slice_subrange(s, 0, n)
}

/// The position of the first `c` in `s`, if there is one.
pub open spec fn index_of(s: Seq<char>, c: char) -> Option<int> {
    let n = leading(s, not_char(c));
    if n < s.len() {
        Some(n as int)
    } else {
        None
    }
}

/// Finds the first `c` in `s`.
pub fn position(s: &[char], c: char) -> (r: Option<usize>)
    ensures
        match r {
            Some(i) => index_of(s@, c) == Some(i as int) && i < s@.len(),
            None => index_of(s@, c) is None,
        },
{
    let mut i: usize = 0;
    while i < s.len() && s[i] != c
        invariant
            i <= s.len(),
            forall|j: int| 0 <= j < i ==> not_char(c)(#[trigger] s@[j]),
        decreases s.len() - i,
    {
        i += 1;
    }
    proof {
        lemma_leading_is(s@, not_char(c), i as int);
    }
    if i < s.len() {
        Some(i)
    } else {
        None
    }
}

/// Whether `needle` stands in `hay` at position `i`.
pub open spec fn occurs_at(hay: Seq<char>, needle: Seq<char>, i: int) -> bool {
    0 <= i && i + needle.len() <= hay.len() && hay.subrange(i, i + needle.len()) == needle
}

/// Whether `needle` stands in `hay` at position `i` and nowhere before it.
pub open spec fn occurs_first_at(hay: Seq<char>, needle: Seq<char>, i: int) -> bool {
    occurs_at(hay, needle, i) && forall|j: int| 0 <= j < i ==> !occurs_at(hay, needle, j)
}

/// Whether `needle` stands somewhere in `hay`.
pub open spec fn occurs(hay: Seq<char>, needle: Seq<char>) -> bool {
    exists|i: int| occurs_at(hay, needle, i)
}

/// The first position at which `needle` stands in `hay`, if it does at all.
pub open spec fn first_occurrence(hay: Seq<char>, needle: Seq<char>) -> Option<int> {
    if occurs(hay, needle) {
        Some(choose|i: int| occurs_first_at(hay, needle, i))
    } else {
        None
    }
}

/// A position at which `needle` stands first is the first occurrence.
pub proof fn lemma_first_occurrence_is(hay: Seq<char>, needle: Seq<char>, i: int)
    requires
        occurs_first_at(hay, needle, i),
    ensures
        first_occurrence(hay, needle) == Some(i),
{
    let k = choose|k: int| occurs_first_at(hay, needle, k);
    assert(k == i);
}

/// A text that stands somewhere in another stands somewhere first.
pub proof fn lemma_first_occurrence_exists(hay: Seq<char>, needle: Seq<char>, i: int)
    requires
        occurs_at(hay, needle, i),
    ensures
        first_occurrence(hay, needle) matches Some(k) && occurs_first_at(hay, needle, k) && k <= i,
    decreases i,
{
    if exists|j: int| 0 <= j < i && occurs_at(hay, needle, j) {
        let j = choose|j: int| 0 <= j < i && occurs_at(hay, needle, j);
        lemma_first_occurrence_exists(hay, needle, j);
    } else {
        lemma_first_occurrence_is(hay, needle, i);
    }
}

/// How often `c` stands in `s`.
pub open spec fn count_of(s: Seq<char>, c: char) -> nat
    decreases s.len(),
{
    if s.len() == 0 {
        0
    } else {
        count_of(s.drop_last(), c) + if s.last() == c {
            1nat
        } else {
            0nat
        }
    }
}

/// A character stands in a text at most as often as the text is long.
pub proof fn lemma_count_of_bound(s: Seq<char>, c: char)
    ensures
        count_of(s, c) <= s.len(),
    decreases s.len(),
{
    if s.len() > 0 {
        lemma_count_of_bound(s.drop_last(), c);
    }
}

/// Whether `needle` stands in `hay` at position `i`.
fn matches_at(hay: &[char], needle: &[char], i: usize) -> (b: bool)
    requires
        i + needle@.len() <= hay@.len(),
    ensures
        b == occurs_at(hay@, needle@, i as int),
{
    let mut k: usize = 0;
    let n: usize = hay.len();
    while k < needle.len()
        invariant
            k <= needle@.len(),
            i + needle@.len() <= hay@.len() == n,
            forall|j: int| 0 <= j < k ==> hay@[i + j] == #[trigger] needle@[j],
        decreases needle@.len() - k,
    {
        if hay[i + k] != needle[k] {
            return false;
        }
        k += 1;
    }
    assert(hay@.subrange(i as int, i + needle@.len()) =~= needle@);
    true
}

/// Finds the first place at which `needle` stands in `hay`.
pub fn find(hay: &[char], needle: &[char]) -> (r: Option<usize>)
    ensures
        match r {
            Some(i) => first_occurrence(hay@, needle@) == Some(i as int) && i + needle@.len()
                <= hay@.len(),
            None => first_occurrence(hay@, needle@) is None,
        },
{
    if needle.len() > hay.len() {
        return None;
    }
    let last: usize = hay.len() - needle.len();
    let mut i: usize = 0;
    while i < last
        invariant
            i <= last,
            last == hay@.len() - needle@.len(),
            forall|j: int| 0 <= j < i ==> !occurs_at(hay@, needle@, j),
        decreases last - i,
    {
        if matches_at(hay, needle, i) {
            proof {
                lemma_first_occurrence_is(hay@, needle@, i as int);
            }
            return Some(i);
        }
        i += 1;
    }
    if matches_at(hay, needle, last) {
        proof {
            lemma_first_occurrence_is(hay@, needle@, last as int);
        }
        Some(last)
    } else {
        None
    }
}

/// Counts how often `c` stands in the first `n` characters of `s`.
pub fn count_before(s: &[char], n: usize, c: char) -> (r: usize)
    requires
        n <= s@.len(),
    ensures
        r == count_of(s@.take(n as int), c),
        r <= n,
{
    let mut r: usize = 0;
    let mut i: usize = 0;
    while i < n
        invariant
            i <= n <= s@.len(),
            r == count_of(s@.take(i as int), c),
            r <= i,
        decreases n - i,
    {
        assert(s@.take(i + 1).drop_last() == s@.take(i as int));
        if s[i] == c {
            r += 1;
        }
        i += 1;
    }
    r
}

} // verus!
