//! Parsing of buffer sizes written as a decimal integer with an optional
//! binary unit: `k`, `m`, `g` or `p`, each optionally followed by `b`, in
//! either case. A unit multiplies the number by 1024 to the power of its
//! rank (`k` is 1, `p` is 4).

use vstd::prelude::*;
use vstd::arithmetic::power::{lemma_pow_positive, pow};

verus! {

/// A decimal digit.
pub open spec fn is_digit(c: char) -> bool {
    '0' <= c && c <= '9'
}

/// Every character of `s` is a decimal digit.
pub open spec fn all_digits(s: Seq<char>) -> bool {
    forall|i: int| 0 <= i < s.len() ==> is_digit(#[trigger] s[i])
}

/// The value of a decimal digit.
pub open spec fn digit_value(c: char) -> nat {
    (c as u32 - '0' as u32) as nat
}

/// The number that a string of decimal digits writes.
pub open spec fn decimal_value(s: Seq<char>) -> nat
    decreases s.len(),
{
    if s.len() == 0 {
        0
    } else {
        decimal_value(s.drop_last()) * 10 + digit_value(s.last())
    }
}

/// The power of 1024 that a unit letter stands for.
pub open spec fn unit_exponent(c: char) -> Option<nat> {
    if c == 'k' || c == 'K' {
        Some(1)
    } else if c == 'm' || c == 'M' {
        Some(2)
    } else if c == 'g' || c == 'G' {
        Some(3)
    } else if c == 'p' || c == 'P' {
        Some(4)
    } else {
        None
    }
}

/// The number of bytes that a size string writes, if it is well formed:
/// one or more digits, then nothing, a unit letter, or a unit letter and
/// a `b`.
pub open spec fn size_value(s: Seq<char>) -> Option<int> {
    let n = s.len() as int;
    if n > 0 && all_digits(s) {
        Some(decimal_value(s) as int)
    } else if n >= 2 && all_digits(s.take(n - 1)) && unit_exponent(s[n - 1]) is Some {
        Some(decimal_value(s.take(n - 1)) * pow(1024, unit_exponent(s[n - 1])->0))
    } else if n >= 3 && all_digits(s.take(n - 2)) && unit_exponent(s[n - 2]) is Some && (s[n
        - 1] == 'b' || s[n - 1] == 'B') {
        Some(decimal_value(s.take(n - 2)) * pow(1024, unit_exponent(s[n - 2])->0))
    } else {
        None
    }
}

/// The buffer size that a size string gives: its value where it is well
/// formed, positive and fits in `usize`.
pub open spec fn parsed_size(s: Seq<char>) -> Option<usize> {
    if size_value(s) is Some && 0 < size_value(s)->0 <= usize::MAX {
        Some(size_value(s)->0 as usize)
    } else {
        None
    }
}

/// A prefix of a string of digits writes no larger a number.
proof fn lemma_decimal_prefix(s: Seq<char>, i: int)
    requires
        0 <= i <= s.len(),
    ensures
        decimal_value(s.take(i)) <= decimal_value(s),
    decreases s.len(),
{
    if i < s.len() {
        lemma_decimal_prefix(s.drop_last(), i);
        assert(s.drop_last().take(i) =~= s.take(i));
    } else {
        assert(s.take(i) =~= s);
    }
}

/// The multiplier of a unit letter.
fn unit_multiplier(c: char) -> (r: Option<u64>)
    ensures
        r is Some <==> unit_exponent(c) is Some,
        r is Some ==> r->0 == pow(1024, unit_exponent(c)->0),
{
    proof {
        reveal_with_fuel(pow, 2);
        assert(pow(1024, 1) == 1024);
        assert(pow(1024, 2) == 1048576);
        assert(pow(1024, 3) == 1073741824);
        assert(pow(1024, 4) == 1099511627776);
    }
    if c == 'k' || c == 'K' {
        Some(1024)
    } else if c == 'm' || c == 'M' {
        Some(1048576)
    } else if c == 'g' || c == 'G' {
        Some(1073741824)
    } else if c == 'p' || c == 'P' {
        Some(1099511627776)
    } else {
        None
    }
}

/// `v` as a `usize`, where it is positive and fits.
fn positive_usize(v: u64) -> (r: Option<usize>)
    ensures
        r == (if 0 < v <= usize::MAX {
            Some(v as usize)
        } else {
            None
        }),
{
    if v == 0 || v > usize::MAX as u64 {
        None
    } else {
        Some(v as usize)
    }
}

/// Parses a buffer size such as `"256m"`, `"2GB"` or `"4096"` into a
/// number of bytes. Returns `None` where the string is not well formed,
/// where the size is zero, or where it does not fit in `usize`.
pub fn parse_memory(s: &str) -> (r: Option<usize>)
    ensures
        r == parsed_size(s@),
{
    let n = s.unicode_len();
    let mut d: usize = 0;
    let mut value: u64 = 0;
    let mut overflow = false;
    while d < n && '0' <= s.get_char(d) && s.get_char(d) <= '9'
        invariant
            d <= n,
            n == s@.len(),
            all_digits(s@.take(d as int)),
            !overflow ==> value == decimal_value(s@.take(d as int)),
            overflow ==> decimal_value(s@.take(d as int)) > u64::MAX,
        decreases n - d,
    {
        let c = s.get_char(d);
        assert(s@.take(d + 1).drop_last() =~= s@.take(d as int));
        if !overflow {
            match value.checked_mul(10) {
                Some(v) => match v.checked_add((c as u32 - '0' as u32) as u64) {
                    Some(w) => {
                        value = w;
                    },
                    None => {
                        overflow = true;
                    },
                },
                None => {
                    overflow = true;
                },
            }
        }
        d = d + 1;
        assert(all_digits(s@.take(d as int)));
    }
    if d == 0 {
        if n >= 2 {
            assert(!is_digit(s@.take(n - 1)[0]));
        }
        if n >= 3 {
            assert(!is_digit(s@.take(n - 2)[0]));
        }
        return None;
    }
    let ghost digits = s@.take(d as int);
    let rest = n - d;
    if rest == 0 {
        assert(s@.take(n as int) =~= s@);
        if overflow {
            return None;
        }
        return positive_usize(value);
    }
    let c = s.get_char(d);
    assert(!is_digit(s@[d as int]));
    assert(digits[d - 1] == s@[d - 1]);
    if rest > 2 {
        assert(s@.take(n - 1)[d as int] == c);
        assert(s@.take(n - 2)[d as int] == c);
        return None;
    }
    if rest == 2 {
        assert(s@.take(n - 1)[d as int] == c);
        let b = s.get_char(d + 1);
        if b != 'b' && b != 'B' {
            return None;
        }
        assert(s@.take(n - 2) =~= digits);
    } else {
        assert(s@.take(n - 1) =~= digits);
    }
    match unit_multiplier(c) {
        None => None,
        Some(mult) => {
            proof {
                lemma_pow_positive(1024, unit_exponent(c)->0);
                if overflow {
                    assert(decimal_value(digits) * mult >= decimal_value(digits))
                        by (nonlinear_arith)
                        requires
                            mult >= 1,
                    ;
                }
            }
            if overflow {
                return None;
            }
            match value.checked_mul(mult) {
                None => None,
                Some(v) => positive_usize(v),
            }
        },
    }
}

} // verus!
