//! Corrupted memory holding `mul(a,b)` instructions: part one sums the
//! products of all of them; part two honours `do()` and `don't()` switches
//! that enable and disable the multiplications.

use vstd::prelude::*;

use crate::util::{all_digits, dec_val, is_digit};
use vstd::string::StringSliceAdditionalSpecFns;

verus! {

/// First index at or after `j` holding a non-digit, or the length.
pub open spec fn digits_end(s: Seq<u8>, j: int) -> int
    decreases s.len() - j,
{
    if j < 0 || j >= s.len() {
        s.len() as int
    } else if !is_digit(s[j]) {
        j
    } else {
        digits_end(s, j + 1)
    }
}

/// The text `t` occurs at position `j` of `s`.
pub open spec fn lit_at(s: Seq<u8>, j: int, t: Seq<u8>) -> bool {
    &&& 0 <= j
    &&& j + t.len() <= s.len()
    &&& s.subrange(j, j + t.len()) == t
}

pub open spec fn mul_head() -> Seq<u8> {
    seq![109u8, 117u8, 108u8, 40u8]
}

pub open spec fn do_lit() -> Seq<u8> {
    seq![100u8, 111u8, 40u8, 41u8]
}

pub open spec fn dont_lit() -> Seq<u8> {
    seq![100u8, 111u8, 110u8, 39u8, 116u8, 40u8, 41u8]
}

/// A `mul(a,b)` instruction at position `j`: the two factors and the index
/// one past the closing parenthesis.
pub open spec fn mul_at(s: Seq<u8>, j: int) -> Option<(int, int, int)> {
    if !lit_at(s, j, mul_head()) {
        None
    } else {
        let e1 = digits_end(s, j + 4);
        if e1 == j + 4 || !(e1 < s.len() && s[e1] == 44) {
            None
        } else {
            let e2 = digits_end(s, e1 + 1);
            if e2 == e1 + 1 || !(e2 < s.len() && s[e2] == 41) {
                None
            } else {
                Some((dec_val(s.subrange(j + 4, e1)), dec_val(s.subrange(e1 + 1, e2)), e2 + 1))
            }
        }
    }
}

/// The scan: at each position, a switch (part two only), an instruction, or
/// a skipped byte; `None` when a factor, product or total leaves `i64`.
pub open spec fn scan(s: Seq<u8>, pos: int, enabled: bool, part_two: bool, acc: int) -> Option<int>
    decreases s.len() - pos,
{
    if pos < 0 || pos >= s.len() {
        Some(acc)
    } else if part_two && lit_at(s, pos, do_lit()) {
        scan(s, pos + 4, true, part_two, acc)
    } else if part_two && lit_at(s, pos, dont_lit()) {
        scan(s, pos + 7, false, part_two, acc)
    } else {
        match mul_at(s, pos) {
            Some(m) => {
                let (a, b, end) = m;
                if a > i64::MAX || b > i64::MAX || a * b > i64::MAX {
                    None
                } else if enabled {
                    if acc + a * b > i64::MAX {
                        None
                    } else if end <= pos {
                        Some(acc)
                    } else {
                        scan(s, end, enabled, part_two, acc + a * b)
                    }
                } else {
                    if end <= pos {
                        Some(acc)
                    } else {
                        scan(s, end, enabled, part_two, acc)
                    }
                }
            },
            None => scan(s, pos + 1, enabled, part_two, acc),
        }
    }
}

/// Matches a literal at a position.
fn match_lit(s: &[u8], j: usize, t: &[u8]) -> (r: bool)
    requires
        j <= s@.len(),
    ensures
        r == lit_at(s@, j as int, t@),
{
    if s.len() - j < t.len() {
        return false;
    }
    let n = s.len();
    let mut k: usize = 0;
    while k < t.len()
        invariant
            n == s@.len(),
            j + t@.len() <= s@.len(),
            0 <= k <= t@.len(),
            forall|m: int| 0 <= m < k ==> s@[j + m] == t@[m],
        decreases t@.len() - k,
    {
        if s[j + k] != t[k] {
            proof {
                assert(s@.subrange(j as int, j + t@.len())[k as int] != t@[k as int]);
            }
            return false;
        }
        k = k + 1;
    }
    proof {
        assert(s@.subrange(j as int, j + t@.len()) =~= t@);
    }
    true
}

/// Scans from `j` to the end of the digit run.
fn find_digits_end(s: &[u8], j: usize) -> (r: usize)
    requires
        j <= s@.len(),
    ensures
        r as int == digits_end(s@, j as int),
        j <= r <= s@.len(),
{
    let mut k: usize = j;
    while k < s.len() && s[k] >= 48 && s[k] <= 57
        invariant
            j <= k <= s@.len(),
            digits_end(s@, j as int) == digits_end(s@, k as int),
        decreases s@.len() - k,
    {
        k = k + 1;
    }
    k
}

/// The scan, shared by both parts.
fn run_scan(input: &str, part_two: bool) -> (r: Option<i64>)
    ensures
        match r {
            Some(v) => scan(input.spec_bytes(), 0, true, part_two, 0) == Some(v as int),
            None => scan(input.spec_bytes(), 0, true, part_two, 0) is None,
        },
{
    let s = input.as_bytes();
    let mut pos: usize = 0;
    let mut enabled = true;
    let mut acc: i64 = 0;
    let mul_h: [u8; 4] = [109, 117, 108, 40];
    let do_l: [u8; 4] = [100, 111, 40, 41];
    let dont_l: [u8; 7] = [100, 111, 110, 39, 116, 40, 41];
    proof {
        assert(mul_h@ =~= mul_head());
        assert(do_l@ =~= do_lit());
        assert(dont_l@ =~= dont_lit());
    }
    while pos < s.len()
        invariant
            mul_h@ == mul_head(),
            do_l@ == do_lit(),
            dont_l@ == dont_lit(),
            0 <= pos <= s@.len(),
            acc >= 0,
            scan(s@, 0, true, part_two, 0) == scan(s@, pos as int, enabled, part_two, acc as int),
            s@ == input.spec_bytes(),
        decreases s@.len() - pos,
    {
        if part_two && match_lit(s, pos, do_l.as_slice()) {
            enabled = true;
            pos = pos + 4;
            continue ;
        }
        if part_two && match_lit(s, pos, dont_l.as_slice()) {
            enabled = false;
            pos = pos + 7;
            continue ;
        }
        if match_lit(s, pos, mul_h.as_slice()) {
            let e1 = find_digits_end(s, pos + 4);
            if e1 > pos + 4 && e1 < s.len() && s[e1] == 44 {
                let e2 = find_digits_end(s, e1 + 1);
                if e2 > e1 + 1 && e2 < s.len() && s[e2] == 41 {
                    // a complete instruction
                    let sa = vstd::slice::slice_subrange(s, pos + 4, e1);
                    let sb = vstd::slice::slice_subrange(s, e1 + 1, e2);
                    proof {
                        assert(all_digits(sa@)) by {
                            assert forall|m: int| 0 <= m < sa@.len() implies is_digit(
                                #[trigger] sa@[m],
                            ) by {
                                assert(sa@[m] == s@[pos + 4 + m]);
                                lemma_digits_run(s@, pos + 4, pos + 4 + m);
                            }
                        }
                        assert(all_digits(sb@)) by {
                            assert forall|m: int| 0 <= m < sb@.len() implies is_digit(
                                #[trigger] sb@[m],
                            ) by {
                                assert(sb@[m] == s@[e1 + 1 + m]);
                                lemma_digits_run(s@, e1 + 1, e1 + 1 + m);
                            }
                        }
                    }
                    let a = match crate::util::parse_u64(sa) {
                        Some(a) => a,
                        None => {
                            proof {
                                crate::util::lemma_dec_val_bounds(sa@);
                            }
                            return None;
                        },
                    };
                    let b = match crate::util::parse_u64(sb) {
                        Some(b) => b,
                        None => {
                            proof {
                                crate::util::lemma_dec_val_bounds(sb@);
                            }
                            return None;
                        },
                    };
                    if a > i64::MAX as u64 || b > i64::MAX as u64 {
                        return None;
                    }
                    proof {
                        assert((a as int) * (b as int)
                            <= 85070591730234615847396907784232501249int) by (nonlinear_arith)
                            requires
                                0 <= a as int <= 9223372036854775807,
                                0 <= b as int <= 9223372036854775807,
                        {}
                        assert(0 <= (a as int) * (b as int)) by (nonlinear_arith)
                            requires
                                0 <= a as int,
                                0 <= b as int,
                        {}
                    }
                    let prod: u128 = (a as u128) * (b as u128);
                    if prod > i64::MAX as u128 {
                        return None;
                    }
                    if enabled {
                        if (acc as u128) + prod > i64::MAX as u128 {
                            return None;
                        }
                        acc = acc + (prod as i64);
                    }
                    pos = e2 + 1;
                    continue ;
                }
            }
        }
        pos = pos + 1;
    }
    Some(acc)
}

proof fn lemma_digits_run(s: Seq<u8>, j: int, m: int)
    requires
        0 <= j <= m < digits_end(s, j) <= s.len(),
    ensures
        is_digit(s[m]),
    decreases m - j,
{
    if m > j {
        lemma_digits_run(s, j + 1, m);
    }
}

/// Sums the products of every `mul` instruction.
///
/// Returns `None` exactly when a factor, product or the total leaves `i64`.
pub fn part1(input: &str) -> (r: Option<i64>)
    ensures
        match r {
            Some(v) => scan(input.spec_bytes(), 0, true, false, 0) == Some(v as int),
            None => scan(input.spec_bytes(), 0, true, false, 0) is None,
        },
{
    run_scan(input, false)
}

/// Sums the products of the `mul` instructions that are enabled by the
/// nearest preceding switch (`do()` enables, `don't()` disables).
///
/// Returns `None` exactly when a factor, product or the total leaves `i64`.
pub fn part2(input: &str) -> (r: Option<i64>)
    ensures
        match r {
            Some(v) => scan(input.spec_bytes(), 0, true, true, 0) == Some(v as int),
            None => scan(input.spec_bytes(), 0, true, true, 0) is None,
        },
{
    run_scan(input, true)
}

} // verus!
