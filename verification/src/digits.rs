//! Decimal text for record identifiers.
//!
//! Store rows carry `u32` identifiers as decimal digit runs. This module
//! formats an identifier into its digit run, parses a digit run back, and
//! proves that the two are inverses.

use vstd::prelude::*;
use vstd::string::StrSliceExecFns;
use vstd::string::StringExecFns;

verus! {

/// A decimal digit character.
pub open spec fn is_digit(c: char) -> bool {
    48 <= c as int <= 57
}

/// The numeric value of a digit character.
pub open spec fn digit_val(c: char) -> int {
    c as int - 48
}

/// The digit character for a value in `0..=9`.
pub open spec fn digit_char(d: int) -> char {
    if d == 0 {
        '0'
    } else if d == 1 {
        '1'
    } else if d == 2 {
        '2'
    } else if d == 3 {
        '3'
    } else if d == 4 {
        '4'
    } else if d == 5 {
        '5'
    } else if d == 6 {
        '6'
    } else if d == 7 {
        '7'
    } else if d == 8 {
        '8'
    } else {
        '9'
    }
}

/// The canonical decimal digit run of a number: no sign, no leading zero
/// (except for the number zero itself).
pub open spec fn u32_digits(n: nat) -> Seq<char>
    decreases n,
{
    if n < 10 {
        seq![digit_char(n as int)]
    } else {
        u32_digits(n / 10).push(digit_char((n % 10) as int))
    }
}

/// Every character of `s` is a decimal digit.
pub open spec fn all_digits(s: Seq<char>) -> bool {
    forall|i: int| 0 <= i < s.len() ==> is_digit(s[i])
}

/// The number denoted by a run of digit characters.
pub open spec fn digits_value(s: Seq<char>) -> int
    decreases s.len(),
{
    if s.len() == 0 {
        0
    } else {
        digits_value(s.drop_last()) * 10 + digit_val(s.last())
    }
}

/// What parsing yields: the value of a non-empty, all-digit run that fits
/// in a `u32`, and nothing otherwise.
pub open spec fn parse_u32_spec(s: Seq<char>) -> Option<u32> {
    if s.len() >= 1 && all_digits(s) && digits_value(s) <= u32::MAX {
        Some(digits_value(s) as u32)
    } else {
        None
    }
}

fn digit_str(d: u32) -> (r: &'static str)
    requires
        d < 10,
    ensures
        r@ =~= seq![digit_char(d as int)],
{
    proof {
        reveal_strlit("0");
        reveal_strlit("1");
        reveal_strlit("2");
        reveal_strlit("3");
        reveal_strlit("4");
        reveal_strlit("5");
        reveal_strlit("6");
        reveal_strlit("7");
        reveal_strlit("8");
        reveal_strlit("9");
    }
    match d {
        0 => "0",
        1 => "1",
        2 => "2",
        3 => "3",
        4 => "4",
        5 => "5",
        6 => "6",
        7 => "7",
        8 => "8",
        _ => "9",
    }
}

/// Format a number as its canonical decimal digit run.
pub fn u32_to_string(n: u32) -> (s: String)
    ensures
        s@ == u32_digits(n as nat),
    decreases n,
{
    if n < 10 {
        String::from_str(digit_str(n))
    } else {
        let mut s = u32_to_string(n / 10);
        s.append(digit_str(n % 10));
        proof {
            assert(s@ =~= u32_digits((n / 10) as nat).push(digit_char((n % 10) as int)));
        }
        s
    }
}

/// A digit run's value only grows as more digits follow it.
proof fn lemma_digits_value_nonneg(s: Seq<char>)
    requires
        all_digits(s),
    ensures
        digits_value(s) >= 0,
    decreases s.len(),
{
    if s.len() > 0 {
        assert(all_digits(s.drop_last()));
        lemma_digits_value_nonneg(s.drop_last());
    }
}

proof fn lemma_digits_value_prefix_le(s: Seq<char>, k: int)
    requires
        all_digits(s),
        0 <= k <= s.len(),
    ensures
        digits_value(s.subrange(0, k)) <= digits_value(s),
    decreases s.len() - k,
{
    if k < s.len() {
        lemma_digits_value_prefix_le(s, k + 1);
        let t = s.subrange(0, k + 1);
        assert(t.drop_last() =~= s.subrange(0, k));
        assert(all_digits(t.drop_last()));
        lemma_digits_value_nonneg(s.subrange(0, k));
        assert(digits_value(t) == digits_value(s.subrange(0, k)) * 10 + digit_val(t.last()));
        assert(digits_value(s.subrange(0, k)) * 10 >= digits_value(s.subrange(0, k))) by (nonlinear_arith)
            requires
                digits_value(s.subrange(0, k)) >= 0,
        ;
        assert(digit_val(t.last()) >= 0);
    } else {
        assert(s.subrange(0, k) =~= s);
    }
}

/// Parse a decimal digit run; yields the value exactly when the whole
/// string is a non-empty run of digits whose value fits in a `u32`.
pub fn parse_u32(s: &str) -> (r: Option<u32>)
    ensures
        r == parse_u32_spec(s@),
{
    let len = s.unicode_len();
    if len == 0 {
        return None;
    }
    let mut val: u32 = 0;
    let mut i: usize = 0;
    while i < len
        invariant
            0 <= i <= len,
            len == s@.len(),
            all_digits(s@.subrange(0, i as int)),
            val == digits_value(s@.subrange(0, i as int)),
        decreases len - i,
    {
        let c = s.get_char(i);
        let cu = c as u32;
        if cu < 48 || cu > 57 {
            assert(!is_digit(s@[i as int]));
            return None;
        }
        let d = cu - 48;
        proof {
            assert(s@.subrange(0, i + 1).drop_last() =~= s@.subrange(0, i as int));
            assert(digits_value(s@.subrange(0, i + 1)) == val * 10 + d);
        }
        if val > (u32::MAX - d) / 10 {
            proof {
                assert(val * 10 + d > u32::MAX) by (nonlinear_arith)
                    requires
                        val > (u32::MAX - d) / 10,
                        d <= 9,
                ;
                if all_digits(s@) {
                    lemma_digits_value_prefix_le(s@, i + 1);
                    assert(digits_value(s@) > u32::MAX);
                }
            }
            return None;
        }
        proof {
            assert(val * 10 + d <= u32::MAX) by (nonlinear_arith)
                requires
                    val <= (u32::MAX - d) / 10,
                    d <= 9,
            ;
        }
        val = val * 10 + d;
        i += 1;
    }
    proof {
        assert(s@.subrange(0, len as int) =~= s@);
    }
    Some(val)
}

/// The canonical digit run of a number is made of digits and is non-empty.
pub proof fn lemma_u32_digits_wf(n: nat)
    ensures
        u32_digits(n).len() >= 1,
        all_digits(u32_digits(n)),
    decreases n,
{
    if n >= 10 {
        lemma_u32_digits_wf(n / 10);
    }
}

/// The canonical digit run of a number denotes that number.
pub proof fn lemma_u32_digits_value(n: nat)
    ensures
        digits_value(u32_digits(n)) == n,
    decreases n,
{
    if n < 10 {
        assert(digits_value(seq![digit_char(n as int)].drop_last()) == 0);
    } else {
        lemma_u32_digits_value(n / 10);
        let s = u32_digits(n / 10).push(digit_char((n % 10) as int));
        assert(s.drop_last() =~= u32_digits(n / 10));
        assert(digits_value(s) == (n / 10) * 10 + (n % 10));
    }
}

/// Round trip: parsing the canonical digit run of `n` yields `n`.
pub proof fn lemma_parse_u32_digits(n: u32)
    ensures
        parse_u32_spec(u32_digits(n as nat)) == Some::<u32>(n),
{
    lemma_u32_digits_wf(n as nat);
    lemma_u32_digits_value(n as nat);
}

} // verus!
