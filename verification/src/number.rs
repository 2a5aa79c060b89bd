//! Decimal numbers: reading the line numbers of a hunk header.

use vstd::prelude::*;
use vstd::slice::slice_subrange;

verus! {

/// Whether `c` is one of the ten ASCII digits.
pub open spec fn is_digit(c: char) -> bool {
    '0' <= c && c <= '9'
}

/// The number that the ASCII digits `s` stand for in base ten.
pub open spec fn digits_value(s: Seq<char>) -> nat
    decreases s.len(),
{
    if s.len() == 0 {
        0
    } else {
        (digits_value(s.drop_last()) * 10 + (s.last() as nat - '0' as nat)) as nat
    }
}

/// Whether every character of `s` is an ASCII digit.
pub open spec fn all_digits(s: Seq<char>) -> bool {
    forall|i: int| 0 <= i < s.len() ==> is_digit(#[trigger] s[i])
}

/// `s` without one plus sign at its start.
pub open spec fn unsigned_part(s: Seq<char>) -> Seq<char> {
    if s.len() > 0 && s[0] == '+' {
        s.skip(1)
    } else {
        s
    }
}

/// The value of `s` read as a 32-bit line number: an optional plus sign, then at
/// least one ASCII digit and nothing else, with a value that fits.
pub open spec fn number(s: Seq<char>) -> Option<u32> {
    let d = unsigned_part(s);
    if d.len() > 0 && all_digits(d) && digits_value(d) <= u32::MAX {
        Some(digits_value(d) as u32)
    } else {
        None
    }
}

/// A number is at least what any of its leading digits stand for.
pub proof fn lemma_digits_value_prefix(s: Seq<char>, n: int)
    requires
        0 <= n <= s.len(),
        all_digits(s),
    ensures
        digits_value(s.take(n)) <= digits_value(s),
    decreases s.len() - n,
{
    if n < s.len() {
        let t = s.take(n + 1);
        assert(t.drop_last() == s.take(n));
        lemma_digits_value_prefix(s, n + 1);
    } else {
        assert(s.take(n) == s);
    }
}

/// What the digit `c` stands for, if `c` is a digit.
fn digit_of(c: char) -> (d: Option<u64>)
    ensures
        d is Some <==> is_digit(c),
        d is Some ==> d->0 == c as nat - '0' as nat,
{
    let n: u32 = c as u32;
    if 48 <= n && n <= 57 {
        Some((n - 48) as u64)
    } else {
        None
    }
}

/// Reads `s` as a 32-bit line number.
pub fn parse_number(s: &[char]) -> (r: Option<u32>)
    ensures
        r == number(s@),
{
    let start: usize = if s.len() > 0 && s[0] == '+' { 1 } else { 0 };
    let d = slice_subrange(s, start, s.len());
    if d.len() == 0 {
        return None;
    }
    let mut acc: u64 = 0;
    let mut i: usize = 0;
    while i < d.len()
        invariant
            i <= d.len(),
            d@ == unsigned_part(s@),
            forall|j: int| 0 <= j < i ==> is_digit(#[trigger] d@[j]),
            acc == digits_value(d@.take(i as int)),
            acc <= u32::MAX,
        decreases d.len() - i,
    {
        let ghost next_prefix = d@.take(i + 1);
        assert(next_prefix.drop_last() == d@.take(i as int));
        match digit_of(d[i]) {
            None => {
                return None;
            },
            Some(v) => {
                let next: u64 = acc * 10 + v;
                if next > 0xffff_ffff {
                    proof {
                        if all_digits(d@) {
                            lemma_digits_value_prefix(d@, i + 1);
                        }
                    }
                    return None;
                }
                acc = next;
            },
        }
        i += 1;
    }
    assert(d@.take(i as int) == d@);
    Some(acc as u32)
}

/// The ASCII digit for `d`, which is less than ten.
pub open spec fn digit_char(d: nat) -> char {
    (('0' as nat) + d) as char
}

/// `n` written in base ten, without leading zeros.
pub open spec fn decimal(n: nat) -> Seq<char>
    decreases n,
{
    if n < 10 {
        seq![digit_char(n)]
    } else {
        decimal(n / 10).push(digit_char(n % 10))
    }
}

/// A number written in base ten is made of digits that stand for it.
pub proof fn lemma_decimal_digits(n: nat)
    ensures
        decimal(n).len() > 0,
        all_digits(decimal(n)),
        digits_value(decimal(n)) == n,
        decimal(n)[0] != '+',
    decreases n,
{
    if n < 10 {
        let s = decimal(n);
        assert(digits_value(s.drop_last()) == 0);
    } else {
        lemma_decimal_digits(n / 10);
        let s = decimal(n);
        assert(s.drop_last() == decimal(n / 10));
    }
}

/// A line number written in base ten reads back as itself.
pub proof fn lemma_number_of_decimal(n: u32)
    ensures
        number(decimal(n as nat)) == Some(n),
{
    lemma_decimal_digits(n as nat);
}

/// Appends `n`, written in base ten, to `out`.
pub fn push_decimal(out: &mut String, n: u32)
    ensures
        final(out)@ == old(out)@ + decimal(n as nat),
    decreases n,
{
    if n >= 10 {
        push_decimal(out, n / 10);
    }
    let d: u8 = (n % 10) as u8;
    let c: char = (48u8 + d) as char;
    out.push(c);
}

} // verus!
