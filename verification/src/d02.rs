//! Reports of number levels: a report is safe when its steps are all in the
//! same direction and no step is larger than three.  Part one counts safe
//! reports; part two also accepts a report that becomes safe after removing
//! one level.

use vstd::prelude::*;

use crate::util::{bytes_view, int_val, int_wf, lines_of, parse_i64, split_lines, split_ws,
    split_whitespace_bytes};
use vstd::string::StringSliceAdditionalSpecFns;

verus! {

/// A piece that reads as an `i64` number.
pub open spec fn num_ok(p: Seq<u8>) -> bool {
    int_wf(p) && i64::MIN <= int_val(p) <= i64::MAX
}

/// The numbers among the pieces, in order; other pieces are skipped.
pub open spec fn filter_ints(ps: Seq<Seq<u8>>) -> Seq<int>
    decreases ps.len(),
{
    if ps.len() == 0 {
        Seq::empty()
    } else {
        filter_ints(ps.drop_last()) + if num_ok(ps.last()) {
            seq![int_val(ps.last())]
        } else {
            Seq::empty()
        }
    }
}

/// The levels on one report line.
pub open spec fn report_of_line(l: Seq<u8>) -> Seq<int> {
    filter_ints(split_ws(l))
}

pub open spec fn sgn(d: int) -> int {
    if d > 0 {
        1
    } else if d < 0 {
        -1
    } else {
        0
    }
}

/// A safe report: all steps share the first step's direction and are at most
/// three apart.
pub open spec fn check_spec(r: Seq<int>) -> bool {
    let sign = sgn(r[1] - r[0]);
    forall|j: int|
        0 <= j < r.len() - 1 ==> sgn(#[trigger] r[j + 1] - r[j]) == sign && -3 <= r[j + 1] - r[j]
            <= 3
}

/// Parses one report line.
pub fn parse_report(l: &[u8]) -> (r: Vec<i64>)
    ensures
        r@.map_values(|x: i64| x as int) == report_of_line(l@),
{
    let pieces = split_whitespace_bytes(l);
    let mut r: Vec<i64> = Vec::new();
    let mut k: usize = 0;
    proof {
        assert(bytes_view(pieces@).take(0) =~= Seq::<Seq<u8>>::empty());
        assert(r@.map_values(|x: i64| x as int) =~= filter_ints(bytes_view(pieces@).take(0)));
    }
    while k < pieces.len()
        invariant
            0 <= k <= pieces@.len(),
            bytes_view(pieces@) == split_ws(l@),
            r@.map_values(|x: i64| x as int) == filter_ints(bytes_view(pieces@).take(k as int)),
        decreases pieces@.len() - k,
    {
        proof {
            let ps = bytes_view(pieces@);
            assert(ps.take(k + 1).drop_last() =~= ps.take(k as int));
            assert(ps.take(k + 1).last() == ps[k as int]);
            assert(ps[k as int] == pieces@[k as int]@);
        }
        let ghost r0 = r@.map_values(|x: i64| x as int);
        match parse_i64(pieces[k].as_slice()) {
            Some(v) => {
                r.push(v);
                proof {
                    assert(r@.map_values(|x: i64| x as int) =~= r0 + seq![v as int]);
                }
            },
            None => {
                proof {
                    assert(r@.map_values(|x: i64| x as int) =~= r0 + Seq::<int>::empty());
                }
            },
        }
        k = k + 1;
    }
    proof {
        assert(bytes_view(pieces@).take(pieces@.len() as int) =~= bytes_view(pieces@));
    }
    r
}

/// Checks one report with at least two levels.
pub fn check(report: &Vec<i64>) -> (r: bool)
    requires
        report@.len() >= 2,
    ensures
        r == check_spec(report@.map_values(|x: i64| x as int)),
{
    let ghost rs = report@.map_values(|x: i64| x as int);
    let d0: i128 = (report[1] as i128) - (report[0] as i128);
    let sign: i128 = if d0 > 0 {
        1
    } else if d0 < 0 {
        -1
    } else {
        0
    };
    let mut j: usize = 0;
    while j < report.len() - 1
        invariant
            rs == report@.map_values(|x: i64| x as int),
            report@.len() >= 2,
            0 <= j <= report@.len() - 1,
            sign as int == sgn(rs[1] - rs[0]),
            forall|t: int|
                0 <= t < j ==> sgn(#[trigger] rs[t + 1] - rs[t]) == sign as int && -3 <= rs[t + 1]
                    - rs[t] <= 3,
        decreases report@.len() - 1 - j,
    {
        let d: i128 = (report[j + 1] as i128) - (report[j] as i128);
        let ds: i128 = if d > 0 {
            1
        } else if d < 0 {
            -1
        } else {
            0
        };
        if ds != sign || d > 3 || d < -3 {
            proof {
                assert(rs[j + 1] - rs[j as int] == d as int);
            }
            return false;
        }
        proof {
            assert(rs[j + 1] - rs[j as int] == d as int);
        }
        j = j + 1;
    }
    true
}

/// Whether a report counts for part two, mirroring the scan over removals:
/// `None` marks a sub-report too short to check.
pub open spec fn any_removed(r: Seq<int>, i: int) -> Option<bool>
    decreases r.len() - i,
{
    if i < 0 || i >= r.len() {
        Some(false)
    } else {
        let rr = r.remove(i);
        if rr.len() < 2 {
            None
        } else if check_spec(rr) {
            Some(true)
        } else {
            any_removed(r, i + 1)
        }
    }
}

pub open spec fn line_safe_p2(r: Seq<int>) -> Option<bool> {
    if r.len() < 2 {
        None
    } else if check_spec(r) {
        Some(true)
    } else {
        any_removed(r, 0)
    }
}

/// How many reports are safe, scanning the lines from `j` on: part one needs
/// every report to have two levels; part two may need every one-removed
/// sub-report to as well.
pub open spec fn count_safe(ls: Seq<Seq<u8>>, j: int, part_two: bool) -> Option<int>
    decreases ls.len() - j,
{
    if j < 0 || j >= ls.len() {
        Some(0)
    } else {
        let r = report_of_line(ls[j]);
        let this = if !part_two {
            if r.len() < 2 {
                None
            } else {
                Some(check_spec(r))
            }
        } else {
            line_safe_p2(r)
        };
        match this {
            None => None,
            Some(safe) => match count_safe(ls, j + 1, part_two) {
                None => None,
                Some(rest) => Some(rest + if safe {
                    1int
                } else {
                    0int
                }),
            },
        }
    }
}

/// A failure at line `j` makes the whole scan fail.
proof fn lemma_count_safe_none(ls: Seq<Seq<u8>>, i: int, j: int, part_two: bool)
    requires
        0 <= i <= j,
        count_safe(ls, j, part_two) is None,
    ensures
        count_safe(ls, i, part_two) is None,
    decreases j - i,
{
    if i < j {
        lemma_count_safe_none(ls, i + 1, j, part_two);
    }
}

/// Counts the safe reports.
///
/// Returns `None` exactly when some report has fewer than two levels.
pub fn part1(input: &str) -> (r: Option<usize>)
    ensures
        match r {
            Some(v) => count_safe(lines_of(input.spec_bytes()), 0, false) == Some(v as int),
            None => count_safe(lines_of(input.spec_bytes()), 0, false) is None,
        },
{
    let bytes = input.as_bytes();
    let ls = split_lines(bytes);
    let ghost lsv = lines_of(input.spec_bytes());
    let mut count: usize = 0;
    let mut j: usize = ls.len();
    let total = ls.len();
    // scan back to front so the spec's recursion unfolds one line per step
    while j > 0
        invariant
            bytes_view(ls@) == lsv,
            lsv == lines_of(input.spec_bytes()),
            ls@.len() == total,
            0 <= j <= ls@.len(),
            count <= ls@.len() - j,
            count_safe(lsv, j as int, false) == Some(count as int),
        decreases j,
    {
        j = j - 1;
        proof {
            assert(lsv[j as int] == ls@[j as int]@);
        }
        let report = parse_report(ls[j].as_slice());
        if report.len() < 2 {
            proof {
                assert(count_safe(lsv, j as int, false) is None);
                lemma_count_safe_none(lsv, 0, j as int, false);
            }
            return None;
        }
        if check(&report) {
            count = count + 1;
        }
    }
    Some(count)
}

/// Counts the reports that are safe, or become safe after removing a single
/// level.
///
/// Returns `None` exactly when a checked report or sub-report has fewer than
/// two levels.
pub fn part2(input: &str) -> (r: Option<usize>)
    ensures
        match r {
            Some(v) => count_safe(lines_of(input.spec_bytes()), 0, true) == Some(v as int),
            None => count_safe(lines_of(input.spec_bytes()), 0, true) is None,
        },
{
    let bytes = input.as_bytes();
    let ls = split_lines(bytes);
    let ghost lsv = lines_of(input.spec_bytes());
    let mut count: usize = 0;
    let mut j: usize = ls.len();
    let total = ls.len();
    while j > 0
        invariant
            bytes_view(ls@) == lsv,
            lsv == lines_of(input.spec_bytes()),
            ls@.len() == total,
            0 <= j <= ls@.len(),
            count <= ls@.len() - j,
            count_safe(lsv, j as int, true) == Some(count as int),
        decreases j,
    {
        j = j - 1;
        proof {
            assert(lsv[j as int] == ls@[j as int]@);
        }
        let report = parse_report(ls[j].as_slice());
        let ghost rs = report@.map_values(|x: i64| x as int);
        if report.len() < 2 {
            proof {
                assert(count_safe(lsv, j as int, true) is None);
                lemma_count_safe_none(lsv, 0, j as int, true);
            }
            return None;
        }
        let mut safe = check(&report);
        let mut failed = false;
        if !safe {
            // try removing each level in turn
            let mut i: usize = 0;
            while i < report.len() && !safe && !failed
                invariant
                    rs == report@.map_values(|x: i64| x as int),
                    report@.len() >= 2,
                    0 <= i <= report@.len(),
                    !check_spec(rs),
                    safe ==> any_removed(rs, 0) == Some(true),
                    failed ==> any_removed(rs, 0) is None,
                    !safe && !failed ==> any_removed(rs, 0) == any_removed(rs, i as int),
                decreases report@.len() - i,
                    if safe || failed {
                        0int
                    } else {
                        1int
                    },
            {
                let mut sub: Vec<i64> = Vec::new();
                let mut t: usize = 0;
                while t < report.len()
                    invariant
                        rs == report@.map_values(|x: i64| x as int),
                        0 <= i < report@.len(),
                        0 <= t <= report@.len(),
                        sub@.map_values(|x: i64| x as int) == if t <= i {
                            rs.subrange(0, t as int)
                        } else {
                            rs.subrange(0, i as int) + rs.subrange(i + 1, t as int)
                        },
                    decreases report@.len() - t,
                {
                    let ghost sub0 = sub@.map_values(|x: i64| x as int);
                    if t != i {
                        sub.push(report[t]);
                        proof {
                            assert(sub@.map_values(|x: i64| x as int) =~= sub0 + seq![
                                rs[t as int]]);
                            if t < i {
                                assert(sub0 + seq![rs[t as int]] =~= rs.subrange(0, t + 1));
                            } else {
                                assert(sub0 + seq![rs[t as int]] =~= rs.subrange(0, i as int)
                                    + rs.subrange(i + 1, t + 1));
                            }
                        }
                    } else {
                        proof {
                            assert(rs.subrange(0, i as int) + rs.subrange(i + 1, t + 1)
                                =~= rs.subrange(0, t as int));
                        }
                    }
                    t = t + 1;
                }
                proof {
                    assert(sub@.map_values(|x: i64| x as int) =~= rs.remove(i as int));
                }
                if sub.len() < 2 {
                    failed = true;
                    proof {
                        assert(any_removed(rs, i as int) is None);
                    }
                } else {
                    if check(&sub) {
                        safe = true;
                        proof {
                            assert(any_removed(rs, i as int) == Some(true));
                        }
                    } else {
                        i = i + 1;
                    }
                }
            }
            proof {
                if !safe && !failed {
                    assert(any_removed(rs, 0) == Some(false));
                }
            }
        }
        if failed {
            proof {
                assert(line_safe_p2(rs) is None);
                assert(count_safe(lsv, j as int, true) is None);
                lemma_count_safe_none(lsv, 0, j as int, true);
            }
            return None;
        }
        if safe {
            count = count + 1;
        }
        proof {
            assert(line_safe_p2(rs) == Some(safe));
        }
    }
    Some(count)
}

} // verus!
