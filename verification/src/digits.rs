//! Decimal rendering of the counters: the digit sequence of a number and its
//! length, used by the renderer to size and fill the numeric columns.

use vstd::prelude::*;

verus! {

/// The decimal digit character for a single digit value.
pub open spec fn spec_digit(d: nat) -> Seq<char> {
    if d == 0 {
        "0"@
    } else if d == 1 {
        "1"@
    } else if d == 2 {
        "2"@
    } else if d == 3 {
        "3"@
    } else if d == 4 {
        "4"@
    } else if d == 5 {
        "5"@
    } else if d == 6 {
        "6"@
    } else if d == 7 {
        "7"@
    } else if d == 8 {
        "8"@
    } else {
        "9"@
    }
}

/// The decimal representation of `n`, most significant digit first.
pub open spec fn spec_dec(n: nat) -> Seq<char>
    decreases n,
{
    if n < 10 {
        spec_digit(n)
    } else {
        spec_dec(n / 10) + spec_digit(n % 10)
    }
}

/// How many decimal digits `n` takes: 1 for values below ten, one more for
/// each further power of ten.
pub open spec fn spec_digit_len(n: nat) -> nat
    decreases n,
{
    if n < 10 {
        1
    } else {
        1 + spec_digit_len(n / 10)
    }
}

/// Each digit is a single character.
proof fn lemma_digit_is_one_char(d: nat)
    ensures
        spec_digit(d).len() == 1,
{
    reveal_strlit("0");
    reveal_strlit("1");
    reveal_strlit("2");
    reveal_strlit("3");
    reveal_strlit("4");
    reveal_strlit("5");
    reveal_strlit("6");
    reveal_strlit("7");
    reveal_strlit("8");
    reveal_strlit("9");
}

/// The digit-length of `n` is exactly the length of its decimal
/// representation.
pub proof fn lemma_dec_len(n: nat)
    ensures
        spec_dec(n).len() == spec_digit_len(n),
    decreases n,
{
    lemma_digit_is_one_char(n % 10);
    if n < 10 {
        lemma_digit_is_one_char(n);
    } else {
        lemma_dec_len(n / 10);
    }
}

/// The digit-length of any value is at least one, and at most the value
/// itself once the value is positive.
proof fn lemma_digit_len_bound(n: nat)
    ensures
        1 <= spec_digit_len(n),
        n >= 1 ==> spec_digit_len(n) <= n,
    decreases n,
{
    if n >= 10 {
        lemma_digit_len_bound(n / 10);
    }
}

/// The length of the decimal string representation of `n`.
pub fn get_str_len(n: usize) -> (len: usize)
    ensures
        len == spec_digit_len(n as nat),
{
    proof {
        lemma_digit_len_bound(n as nat);
    }
    let mut k: usize = n;
    let mut len: usize = 1;
    while k >= 10
        invariant
            spec_digit_len(n as nat) == (len - 1) + spec_digit_len(k as nat),
            1 <= len,
            len <= spec_digit_len(n as nat),
            spec_digit_len(n as nat) <= usize::MAX,
        decreases k,
    {
        proof {
            lemma_digit_len_bound((k / 10) as nat);
        }
        k = k / 10;
        len = len + 1;
    }
    len
}

/// The decimal digit character for `d`.
fn digit_str(d: usize) -> (s: &'static str)
    requires
        d < 10,
    ensures
        s@ == spec_digit(d as nat),
{
    if d == 0 {
        "0"
    } else if d == 1 {
        "1"
    } else if d == 2 {
        "2"
    } else if d == 3 {
        "3"
    } else if d == 4 {
        "4"
    } else if d == 5 {
        "5"
    } else if d == 6 {
        "6"
    } else if d == 7 {
        "7"
    } else if d == 8 {
        "8"
    } else {
        "9"
    }
}

/// Renders `n` in decimal, most significant digit first.
pub fn dec_str(n: usize) -> (s: String)
    ensures
        s@ == spec_dec(n as nat),
    decreases n,
{
    if n < 10 {
        String::from_str(digit_str(n))
    } else {
        let mut s = dec_str(n / 10);
        s.append(digit_str(n % 10));
        s
    }
}

} // verus!
