//! Stones that rewrite on each blink: 0 becomes 1, an even-digit number
//! splits in half, anything else is multiplied by 2024.  The answer is how
//! many stones exist after a number of blinks.

use vstd::prelude::*;

use crate::util::{bytes_view, int_val, int_wf, split_whitespace_bytes, split_ws};
use vstd::string::StringSliceAdditionalSpecFns;

verus! {

/// Number of decimal digits of a positive number.
pub open spec fn num_digits(x: int) -> int
    decreases x,
{
    if x < 10 {
        1
    } else {
        1 + num_digits(x / 10)
    }
}

/// Ten to the `k`.
pub open spec fn pow10(k: int) -> int
    decreases k,
{
    if k <= 0 {
        1
    } else {
        10 * pow10(k - 1)
    }
}

/// How many stones a single stone becomes after `depth` blinks; `None` when
/// a stone or a count would leave `i64` range.
pub open spec fn stones_c(x: int, depth: int) -> Option<int>
    decreases depth,
{
    if depth <= 0 {
        Some(1)
    } else if x == 0 {
        stones_c(1, depth - 1)
    } else {
        let d = num_digits(x);
        if d % 2 == 0 {
            let h = pow10(d / 2);
            match stones_c(x / h, depth - 1) {
                None => None,
                Some(a) => match stones_c(x % h, depth - 1) {
                    None => None,
                    Some(b) => if a + b > i64::MAX {
                        None
                    } else {
                        Some(a + b)
                    },
                },
            }
        } else {
            if x * 2024 > i64::MAX {
                None
            } else {
                stones_c(x * 2024, depth - 1)
            }
        }
    }
}

proof fn lemma_pow10_mono(k: int)
    requires
        k >= 0,
    ensures
        pow10(k) >= 1,
        pow10(k + 1) == 10 * pow10(k),
    decreases k,
{
    if k > 0 {
        lemma_pow10_mono(k - 1);
    }
}

proof fn lemma_pow10_le(a: int, b: int)
    requires
        0 <= a <= b,
    ensures
        pow10(a) <= pow10(b),
    decreases b - a,
{
    if a < b {
        lemma_pow10_le(a, b - 1);
        lemma_pow10_mono(b - 1);
    }
}

proof fn lemma_pow10_19()
    ensures
        pow10(19) == 10000000000000000000,
        pow10(9) == 1000000000,
{
    reveal_with_fuel(pow10, 21);
}

/// Counts the digits of a positive number.
fn count_digits(x: i64) -> (r: u32)
    requires
        x >= 1,
    ensures
        r as int == num_digits(x as int),
        1 <= r <= 19,
{
    let mut r: u32 = 1;
    let mut y: i64 = x;
    while y >= 10
        invariant
            y >= 1,
            x >= 1,
            1 <= r <= 19,
            num_digits(x as int) == num_digits(y as int) + r - 1,
            x as int >= y as int * pow10(r as int - 1),
        decreases y,
    {
        proof {
            lemma_pow10_mono(r as int - 1);
            lemma_pow10_19();
            // the next level still fits below ten to the nineteen
            assert((y as int / 10) * pow10(r as int) <= y as int * pow10(r as int - 1))
                by (nonlinear_arith)
                requires
                    y as int >= 10,
                    pow10(r as int) == 10 * pow10(r as int - 1),
                    pow10(r as int - 1) >= 1,
            {}
            assert(x as int >= 10 * pow10(r as int - 1)) by (nonlinear_arith)
                requires
                    x as int >= y as int * pow10(r as int - 1),
                    y as int >= 10,
                    pow10(r as int - 1) >= 1,
            {}
            if r >= 19 {
                lemma_pow10_le(19, r as int);
                assert(x as int >= 10 * pow10(18)) by (nonlinear_arith)
                    requires
                        x as int >= 10 * pow10(r as int - 1),
                        pow10(r as int - 1) >= pow10(18),
                {}
                assert(pow10(19) == 10 * pow10(18));
                assert(false);
            }
        }
        y = y / 10;
        r = r + 1;
    }
    r
}

/// Ten to the `k`, for `k` at most nine.
fn pow10_exec(k: u32) -> (r: i64)
    requires
        k <= 9,
    ensures
        r as int == pow10(k as int),
        r >= 1,
{
    let mut r: i64 = 1;
    let mut i: u32 = 0;
    while i < k
        invariant
            0 <= i <= k <= 9,
            r as int == pow10(i as int),
            r >= 1,
        decreases k - i,
    {
        proof {
            lemma_pow10_le(i as int, 8);
            lemma_pow10_19();
            lemma_pow10_le(9, 9);
            assert(pow10(8) <= 100000000) by {
                reveal_with_fuel(pow10, 10);
            }
        }
        r = r * 10;
        i = i + 1;
    }
    r
}

/// The rewrite count of one stone after `depth` blinks.
pub fn do_rules(stone: i64, depth: u32) -> (r: Option<i64>)
    requires
        stone >= 0,
    ensures
        match r {
            Some(v) => stones_c(stone as int, depth as int) == Some(v as int),
            None => stones_c(stone as int, depth as int) is None,
        },
    decreases depth,
{
    if depth == 0 {
        return Some(1);
    }
    if stone == 0 {
        return do_rules(1, depth - 1);
    }
    let d = count_digits(stone);
    if d % 2 == 0 {
        let half = d / 2;
        proof {
            assert(half <= 9);
            lemma_pow10_mono(half as int);
        }
        let h = pow10_exec(half);
        let left = stone / h;
        let right = stone % h;
        let a = match do_rules(left, depth - 1) {
            Some(a) => a,
            None => {
                return None;
            },
        };
        let b = match do_rules(right, depth - 1) {
            Some(b) => b,
            None => {
                return None;
            },
        };
        proof {
            lemma_stones_nonneg(left as int, depth - 1);
            lemma_stones_nonneg(right as int, depth - 1);
        }
        if a > i64::MAX - b {
            return None;
        }
        Some(a + b)
    } else {
        if stone > i64::MAX / 2024 {
            proof {
                assert(stone as int * 2024 > i64::MAX) by (nonlinear_arith)
                    requires
                        stone as int > i64::MAX as int / 2024,
                {}
            }
            return None;
        }
        proof {
            assert(stone as int * 2024 <= i64::MAX) by (nonlinear_arith)
                requires
                    0 <= stone as int <= i64::MAX as int / 2024,
            {}
        }
        do_rules(stone * 2024, depth - 1)
    }
}

/// Stone counts are positive.
proof fn lemma_stones_nonneg(x: int, depth: int)
    ensures
        stones_c(x, depth) matches Some(v) ==> v >= 1,
    decreases depth,
{
    if depth > 0 {
        lemma_stones_nonneg(1, depth - 1);
        if x != 0 {
            let d = num_digits(x);
            let h = pow10(d / 2);
            lemma_stones_nonneg(x / h, depth - 1);
            lemma_stones_nonneg(x % h, depth - 1);
            lemma_stones_nonneg(x * 2024, depth - 1);
        }
    }
}

/// The total over the whitespace-separated stones, from piece `k` on; `None`
/// when a piece is not a number in range, a stone is negative, or a count
/// leaves `i64` range.
pub open spec fn d11_fold(ps: Seq<Seq<u8>>, k: int, depth: int, acc: int) -> Option<int>
    decreases ps.len() - k,
{
    if k < 0 || k >= ps.len() {
        Some(acc)
    } else if !(int_wf(ps[k]) && 0 <= int_val(ps[k]) <= i64::MAX) {
        None
    } else {
        match stones_c(int_val(ps[k]), depth) {
            None => None,
            Some(v) => if acc + v > i64::MAX {
                None
            } else {
                d11_fold(ps, k + 1, depth, acc + v)
            },
        }
    }
}

/// Blinks every stone `depth` times and sums the counts.
pub fn parse_and_do(input: &str, depth: u32) -> (r: Option<i64>)
    ensures
        match r {
            Some(v) => d11_fold(split_ws(input.spec_bytes()), 0, depth as int, 0) == Some(v as int),
            None => d11_fold(split_ws(input.spec_bytes()), 0, depth as int, 0) is None,
        },
{
    let bytes = input.as_bytes();
    let pieces = split_whitespace_bytes(bytes);
    let ghost ps = split_ws(input.spec_bytes());
    let mut acc: i64 = 0;
    let mut k: usize = 0;
    while k < pieces.len()
        invariant
            bytes_view(pieces@) == ps,
            ps == split_ws(input.spec_bytes()),
            0 <= k <= pieces@.len(),
            acc >= 0,
            d11_fold(ps, 0, depth as int, 0) == d11_fold(ps, k as int, depth as int, acc as int),
        decreases pieces@.len() - k,
    {
        proof {
            assert(ps[k as int] == pieces@[k as int]@);
        }
        let x = match crate::util::parse_i64(pieces[k].as_slice()) {
            Some(x) => x,
            None => {
                return None;
            },
        };
        if x < 0 {
            return None;
        }
        let v = match do_rules(x, depth) {
            Some(v) => v,
            None => {
                return None;
            },
        };
        proof {
            lemma_stones_nonneg(x as int, depth as int);
        }
        if acc > i64::MAX - v {
            return None;
        }
        acc = acc + v;
        k = k + 1;
    }
    Some(acc)
}

/// The stone count after 25 blinks.
pub fn part1(input: &str) -> (r: Option<i64>)
    ensures
        match r {
            Some(v) => d11_fold(split_ws(input.spec_bytes()), 0, 25, 0) == Some(v as int),
            None => d11_fold(split_ws(input.spec_bytes()), 0, 25, 0) is None,
        },
{
    parse_and_do(input, 25)
}

/// The stone count after 75 blinks.
pub fn part2(input: &str) -> (r: Option<i64>)
    ensures
        match r {
            Some(v) => d11_fold(split_ws(input.spec_bytes()), 0, 75, 0) == Some(v as int),
            None => d11_fold(split_ws(input.spec_bytes()), 0, 75, 0) is None,
        },
{
    parse_and_do(input, 75)
}

} // verus!
