//! Page-ordering rules and update manuals: part one sums the middle pages of
//! the manuals already in order; part two first reorders the broken ones by
//! the rules.  A parse failure makes both parts answer zero, as the puzzle's
//! error handling does.

use vstd::prelude::*;

use crate::circuit::find_empty;
use crate::util::{all_digits, bytes_view, dec_val, find_byte, lemma_find_byte, lemma_find_byte_is,
    lines_of, parse_u64, split_lines};
use vstd::string::StringSliceAdditionalSpecFns;

verus! {

/// A rule line `a|b`: page `a` must come before page `b`.
pub open spec fn rule_line(l: Seq<u8>) -> Option<(int, int)> {
    let i = find_byte(l, 124);
    if !(0 < i < l.len()) {
        None
    } else {
        let xs = l.subrange(0, i);
        let ys = l.subrange(i + 1, l.len() as int);
        if !(all_digits(xs) && xs.len() > 0 && all_digits(ys) && ys.len() > 0 && dec_val(xs)
            <= usize::MAX && dec_val(ys) <= usize::MAX) {
            None
        } else {
            Some((dec_val(xs), dec_val(ys)))
        }
    }
}

/// A manual line: comma-separated pages.
pub open spec fn manual_line(l: Seq<u8>) -> Option<Seq<int>>
    decreases l.len(),
{
    let i = find_byte(l, 44);
    if 0 <= i < l.len() {
        let xs = l.subrange(0, i);
        if !(all_digits(xs) && xs.len() > 0 && dec_val(xs) <= usize::MAX) {
            None
        } else {
            match manual_line(l.subrange(i + 1, l.len() as int)) {
                None => None,
                Some(rest) => Some(seq![dec_val(xs)] + rest),
            }
        }
    } else {
        if !(all_digits(l) && l.len() > 0 && dec_val(l) <= usize::MAX) {
            None
        } else {
            Some(seq![dec_val(l)])
        }
    }
}

/// The rules, as pairs, from lines `[0, k)`.
pub open spec fn rules_upto(ls: Seq<Seq<u8>>, k: int) -> Option<Seq<(int, int)>>
    decreases k,
{
    if k <= 0 {
        Some(Seq::empty())
    } else {
        match rules_upto(ls, k - 1) {
            None => None,
            Some(rs) => if k - 1 >= ls.len() {
                Some(rs)
            } else {
                match rule_line(ls[k - 1]) {
                    None => None,
                    Some(r) => Some(rs.push(r)),
                }
            },
        }
    }
}

/// The manuals from lines `[k, hi)`.
pub open spec fn manuals_from(ls: Seq<Seq<u8>>, k: int) -> Option<Seq<Seq<int>>>
    decreases ls.len() - k,
{
    if k < 0 || k >= ls.len() {
        Some(Seq::empty())
    } else {
        match manual_line(ls[k]) {
            None => None,
            Some(m) => match manuals_from(ls, k + 1) {
                None => None,
                Some(rest) => Some(seq![m] + rest),
            },
        }
    }
}

/// Rule `a|b` appears.
pub open spec fn rule_in(rules: Seq<(int, int)>, a: int, b: int) -> bool {
    exists|j: int| 0 <= j < rules.len() && rules[j] == (a, b)
}

/// No later page is ruled to come before an earlier one.
pub open spec fn manual_valid(rules: Seq<(int, int)>, pages: Seq<int>) -> bool {
    forall|i: int, j: int| 0 <= j < i < pages.len() ==> !rule_in(rules, pages[i], pages[j])
}

/// The comparator's strictly-greater case: the pages must swap.
pub open spec fn page_gt(rules: Seq<(int, int)>, a: int, b: int) -> bool {
    !rule_in(rules, a, b) && rule_in(rules, b, a)
}

/// Stable insertion by the rules: `x` goes before the first page ruled to
/// come after it.
pub open spec fn ins_by(rules: Seq<(int, int)>, s: Seq<int>, x: int) -> Seq<int>
    decreases s.len(),
{
    if s.len() == 0 {
        seq![x]
    } else if page_gt(rules, s[0], x) {
        seq![x] + s
    } else {
        seq![s[0]] + ins_by(rules, s.skip(1), x)
    }
}

/// Insertion sort by the rules.
pub open spec fn sort_by_rules(rules: Seq<(int, int)>, s: Seq<int>) -> Seq<int>
    decreases s.len(),
{
    if s.len() == 0 {
        Seq::empty()
    } else {
        ins_by(rules, sort_by_rules(rules, s.drop_last()), s.last())
    }
}

proof fn lemma_ins_by_len(rules: Seq<(int, int)>, s: Seq<int>, x: int)
    ensures
        ins_by(rules, s, x).len() == s.len() + 1,
    decreases s.len(),
{
    if s.len() > 0 && !page_gt(rules, s[0], x) {
        lemma_ins_by_len(rules, s.skip(1), x);
    }
}

proof fn lemma_sort_by_len(rules: Seq<(int, int)>, s: Seq<int>)
    ensures
        sort_by_rules(rules, s).len() == s.len(),
    decreases s.len(),
{
    if s.len() > 0 {
        lemma_sort_by_len(rules, s.drop_last());
        lemma_ins_by_len(rules, sort_by_rules(rules, s.drop_last()), s.last());
    }
}

proof fn lemma_ins_by_at(rules: Seq<(int, int)>, s: Seq<int>, x: int, p: int)
    requires
        0 <= p <= s.len(),
        forall|j: int| 0 <= j < p ==> !page_gt(rules, s[j], x),
        p < s.len() ==> page_gt(rules, s[p], x),
    ensures
        ins_by(rules, s, x) == s.subrange(0, p) + seq![x] + s.skip(p),
    decreases p,
{
    if p == 0 {
        if s.len() == 0 {
            assert(ins_by(rules, s, x) =~= s.subrange(0, 0) + seq![x] + s.skip(0));
        } else {
            assert(seq![x] + s =~= s.subrange(0, 0) + seq![x] + s.skip(0));
        }
    } else {
        assert(!page_gt(rules, s[0], x));
        assert forall|j: int| 0 <= j < p - 1 implies !page_gt(rules, s.skip(1)[j], x) by {
            assert(s.skip(1)[j] == s[j + 1]);
        }
        assert(p - 1 < s.skip(1).len() ==> page_gt(rules, s.skip(1)[p - 1], x));
        lemma_ins_by_at(rules, s.skip(1), x, p - 1);
        assert(seq![s[0]] + s.skip(1).subrange(0, p - 1) =~= s.subrange(0, p));
        assert(s.skip(1).skip(p - 1) =~= s.skip(p));
        assert(seq![s[0]] + (s.skip(1).subrange(0, p - 1) + seq![x] + s.skip(1).skip(p - 1))
            =~= s.subrange(0, p) + seq![x] + s.skip(p));
    }
}

proof fn lemma_rules_none(ls: Seq<Seq<u8>>, a: int, b: int)
    requires
        0 <= a <= b,
        rules_upto(ls, a) is None,
    ensures
        rules_upto(ls, b) is None,
    decreases b - a,
{
    if a < b {
        lemma_rules_none(ls, a + 1, b);
    }
}

proof fn lemma_manuals_none(ls: Seq<Seq<u8>>, a: int, b: int)
    requires
        0 <= a <= b,
        manuals_from(ls, b) is None,
    ensures
        manuals_from(ls, a) is None,
    decreases b - a,
{
    if a < b {
        lemma_manuals_none(ls, a, b - 1);
    }
}

/// The parsed rules and manuals; `None` on any malformed line or a missing
/// blank separator.
pub open spec fn d05_parse(s: Seq<u8>) -> Option<(Seq<(int, int)>, Seq<Seq<int>>)> {
    let ls = lines_of(s);
    let sep = find_empty(ls);
    if sep >= ls.len() {
        None
    } else {
        match rules_upto(ls, sep) {
            None => None,
            Some(rs) => match manuals_from(ls, sep + 1) {
                None => None,
                Some(ms) => Some((rs, ms)),
            },
        }
    }
}

/// The middle-page sum, over the manuals from `k` on: part one takes the
/// already-valid ones, part two sorts and takes the broken ones.  `None`
/// marks a sum leaving `i32` range.
pub open spec fn mid_sum(
    rules: Seq<(int, int)>,
    ms: Seq<Seq<int>>,
    k: int,
    part_two: bool,
    acc: int,
) -> Option<int>
    decreases ms.len() - k,
{
    if k < 0 || k >= ms.len() {
        Some(acc)
    } else {
        let m = ms[k];
        let counted = if part_two {
            !manual_valid(rules, m)
        } else {
            manual_valid(rules, m)
        };
        if !counted {
            mid_sum(rules, ms, k + 1, part_two, acc)
        } else {
            let pages = if part_two {
                sort_by_rules(rules, m)
            } else {
                m
            };
            if m.len() == 0 {
                None
            } else {
                let t = acc + pages[m.len() as int / 2];
                if t > i32::MAX {
                    None
                } else {
                    mid_sum(rules, ms, k + 1, part_two, t)
                }
            }
        }
    }
}

/// The part's answer: zero when the text does not parse, else the middle-page
/// sum; `None` when that sum leaves `i32` range (or a manual is empty).
pub open spec fn d05_spec(s: Seq<u8>, part_two: bool) -> Option<int> {
    match d05_parse(s) {
        None => Some(0),
        Some(p) => mid_sum(p.0, p.1, 0, part_two, 0),
    }
}

/// Splits `l` on the first `|`, parsing both sides as pages.
fn parse_rule_line(l: &[u8]) -> (r: Option<(usize, usize)>)
    ensures
        match r {
            Some(p) => rule_line(l@) == Some((p.0 as int, p.1 as int)),
            None => rule_line(l@) is None,
        },
{
    proof {
        lemma_find_byte(l@, 124);
    }
    let mut i: usize = 0;
    while i < l.len() && l[i] != 124
        invariant
            0 <= i <= l@.len(),
            forall|k: int| 0 <= k < i ==> l@[k] != 124,
        decreases l@.len() - i,
    {
        i = i + 1;
    }
    proof {
        lemma_find_byte_is(l@, 124, i as int);
    }
    if i == 0 || i >= l.len() {
        return None;
    }
    let xs = vstd::slice::slice_subrange(l, 0, i);
    let ys = vstd::slice::slice_subrange(l, i + 1, l.len());
    let a = match parse_u64(xs) {
        Some(a) => a,
        None => {
            proof {
                if all_digits(xs@) && xs@.len() > 0 {
                    crate::util::lemma_dec_val_bounds(xs@);
                }
            }
            return None;
        },
    };
    let b = match parse_u64(ys) {
        Some(b) => b,
        None => {
            proof {
                if all_digits(ys@) && ys@.len() > 0 {
                    crate::util::lemma_dec_val_bounds(ys@);
                }
            }
            return None;
        },
    };
    if a > usize::MAX as u64 || b > usize::MAX as u64 {
        return None;
    }
    Some((a as usize, b as usize))
}

/// Splits `l` on commas, parsing every piece as a page.
fn parse_manual_line(l: &[u8]) -> (r: Option<Vec<usize>>)
    ensures
        match r {
            Some(m) => manual_line(l@) == Some(m@.map_values(|x: usize| x as int)),
            None => manual_line(l@) is None,
        },
    decreases l@.len(),
{
    proof {
        lemma_find_byte(l@, 44);
    }
    let mut i: usize = 0;
    while i < l.len() && l[i] != 44
        invariant
            0 <= i <= l@.len(),
            forall|k: int| 0 <= k < i ==> l@[k] != 44,
        decreases l@.len() - i,
    {
        i = i + 1;
    }
    proof {
        lemma_find_byte_is(l@, 44, i as int);
    }
    if i < l.len() {
        // a comma: the head page, then the rest of the line
        let xs = vstd::slice::slice_subrange(l, 0, i);
        let x = match parse_u64(xs) {
            Some(x) => x,
            None => {
                proof {
                    if all_digits(xs@) && xs@.len() > 0 {
                        crate::util::lemma_dec_val_bounds(xs@);
                    }
                }
                return None;
            },
        };
        if x > usize::MAX as u64 {
            return None;
        }
        let rest_slice = vstd::slice::slice_subrange(l, i + 1, l.len());
        let rest = match parse_manual_line(rest_slice) {
            Some(rest) => rest,
            None => {
                return None;
            },
        };
        let mut m: Vec<usize> = Vec::new();
        m.push(x as usize);
        let mut t: usize = 0;
        while t < rest.len()
            invariant
                0 <= t <= rest@.len(),
                m@.len() == t + 1,
                m@[0] == x as usize,
                forall|j: int| 0 <= j < t ==> (#[trigger] m@[j + 1]) == rest@[j],
            decreases rest@.len() - t,
        {
            m.push(rest[t]);
            t = t + 1;
        }
        proof {
            let mm = m@.map_values(|v: usize| v as int);
            let rm = rest@.map_values(|v: usize| v as int);
            assert(mm.len() == rm.len() + 1);
            assert(mm[0] == dec_val(xs@));
            assert forall|j: int| 0 <= j < rm.len() implies mm[j + 1] == rm[j] by {
                assert(m@[j + 1] == rest@[j]);
            }
            assert(mm =~= seq![dec_val(xs@)] + rm);
        }
        Some(m)
    } else {
        let x = match parse_u64(l) {
            Some(x) => x,
            None => {
                proof {
                    if all_digits(l@) && l@.len() > 0 {
                        crate::util::lemma_dec_val_bounds(l@);
                    }
                }
                return None;
            },
        };
        if x > usize::MAX as u64 {
            return None;
        }
        let mut m: Vec<usize> = Vec::new();
        m.push(x as usize);
        proof {
            assert(m@.map_values(|v: usize| v as int) =~= seq![dec_val(l@)]);
        }
        Some(m)
    }
}

/// Whether rule `a|b` appears in the list.
fn rule_exists(rules: &Vec<(usize, usize)>, a: usize, b: usize) -> (r: bool)
    ensures
        r == rule_in(rules@.map_values(|p: (usize, usize)| (p.0 as int, p.1 as int)), a as int, b as int),
{
    let ghost rv = rules@.map_values(|p: (usize, usize)| (p.0 as int, p.1 as int));
    let mut j: usize = 0;
    while j < rules.len()
        invariant
            rv == rules@.map_values(|p: (usize, usize)| (p.0 as int, p.1 as int)),
            0 <= j <= rules@.len(),
            forall|k: int| 0 <= k < j ==> rv[k] != (a as int, b as int),
        decreases rules@.len() - j,
    {
        let (x, y) = rules[j];
        if x == a && y == b {
            proof {
                assert(rv[j as int] == (a as int, b as int));
            }
            return true;
        }
        j = j + 1;
    }
    false
}

/// Whether a manual's pages respect every rule.
fn is_valid(rules: &Vec<(usize, usize)>, pages: &Vec<usize>) -> (r: bool)
    ensures
        r == manual_valid(
            rules@.map_values(|p: (usize, usize)| (p.0 as int, p.1 as int)),
            pages@.map_values(|x: usize| x as int),
        ),
{
    let ghost rv = rules@.map_values(|p: (usize, usize)| (p.0 as int, p.1 as int));
    let ghost pv = pages@.map_values(|x: usize| x as int);
    let mut i: usize = 0;
    while i < pages.len()
        invariant
            rv == rules@.map_values(|p: (usize, usize)| (p.0 as int, p.1 as int)),
            pv == pages@.map_values(|x: usize| x as int),
            0 <= i <= pages@.len(),
            forall|a: int, b: int| 0 <= b < a < i ==> !rule_in(rv, pv[a], pv[b]),
        decreases pages@.len() - i,
    {
        let mut j: usize = 0;
        while j < i
            invariant
                rv == rules@.map_values(|p: (usize, usize)| (p.0 as int, p.1 as int)),
                pv == pages@.map_values(|x: usize| x as int),
                0 <= j <= i < pages@.len(),
                forall|a: int, b: int| 0 <= b < a < i ==> !rule_in(rv, pv[a], pv[b]),
                forall|b: int| 0 <= b < j ==> !rule_in(rv, pv[i as int], pv[b]),
            decreases i - j,
        {
            if rule_exists(rules, pages[i], pages[j]) {
                proof {
                    assert(rule_in(rv, pv[i as int], pv[j as int]));
                }
                return false;
            }
            j = j + 1;
        }
        i = i + 1;
    }
    true
}

/// Insertion sort by the rules (stable, like the puzzle's sort).
fn sort_pages(rules: &Vec<(usize, usize)>, pages: &Vec<usize>) -> (r: Vec<usize>)
    ensures
        r@.map_values(|x: usize| x as int) == sort_by_rules(
            rules@.map_values(|p: (usize, usize)| (p.0 as int, p.1 as int)),
            pages@.map_values(|x: usize| x as int),
        ),
{
    let ghost rv = rules@.map_values(|p: (usize, usize)| (p.0 as int, p.1 as int));
    let ghost pv = pages@.map_values(|x: usize| x as int);
    let mut r: Vec<usize> = Vec::new();
    let mut k: usize = 0;
    proof {
        assert(pv.take(0) =~= Seq::<int>::empty());
        assert(r@.map_values(|x: usize| x as int) =~= sort_by_rules(rv, pv.take(0)));
    }
    while k < pages.len()
        invariant
            rv == rules@.map_values(|p: (usize, usize)| (p.0 as int, p.1 as int)),
            pv == pages@.map_values(|x: usize| x as int),
            0 <= k <= pages@.len(),
            r@.len() == k,
            r@.map_values(|x: usize| x as int) == sort_by_rules(rv, pv.take(k as int)),
        decreases pages@.len() - k,
    {
        let x = pages[k];
        let mut p: usize = 0;
        let mut stop = false;
        while p < r.len() && !stop
            invariant
                rv == rules@.map_values(|p2: (usize, usize)| (p2.0 as int, p2.1 as int)),
                0 <= p <= r@.len(),
                forall|j: int|
                    0 <= j < p ==> !page_gt(rv, (#[trigger] r@[j]) as int, x as int),
                stop ==> p < r@.len() && page_gt(rv, r@[p as int] as int, x as int),
            decreases r@.len() - p,
                (if stop {
                    0int
                } else {
                    1int
                }),
        {
            let gt = !rule_exists(rules, r[p], x) && rule_exists(rules, x, r[p]);
            if gt {
                stop = true;
            } else {
                p = p + 1;
            }
        }
        let ghost rs = r@.map_values(|y: usize| y as int);
        r.insert(p, x);
        proof {
            assert(pv.take(k + 1).drop_last() =~= pv.take(k as int));
            assert(pv.take(k + 1).last() == pv[k as int]);
            lemma_ins_by_at(rv, rs, x as int, p as int);
            assert(r@.map_values(|y: usize| y as int) =~= rs.subrange(0, p as int) + seq![x as int]
                + rs.skip(p as int));
        }
        k = k + 1;
    }
    proof {
        assert(pv.take(pv.len() as int) =~= pv);
    }
    r
}

/// Both parts: parse (zero on failure), pick the manuals, sum middle pages.
fn solve(input: &str, part_two: bool) -> (r: Option<u64>)
    ensures
        match r {
            Some(v) => d05_spec(input.spec_bytes(), part_two) == Some(v as int),
            None => d05_spec(input.spec_bytes(), part_two) is None,
        },
{
    let bytes = input.as_bytes();
    let ls = split_lines(bytes);
    let ghost lsv = lines_of(input.spec_bytes());
    // the blank separator
    let mut sep: usize = 0;
    while sep < ls.len() && ls[sep].len() != 0
        invariant
            bytes_view(ls@) == lsv,
            0 <= sep <= ls@.len(),
            forall|k: int| 0 <= k < sep ==> (#[trigger] lsv[k]).len() != 0,
        decreases ls@.len() - sep,
    {
        proof {
            assert(lsv[sep as int] == ls@[sep as int]@);
        }
        sep = sep + 1;
    }
    proof {
        if sep < ls@.len() {
            assert(lsv[sep as int] == ls@[sep as int]@);
        }
        crate::circuit::lemma_find_empty_is(lsv, sep as int);
    }
    if sep >= ls.len() {
        return Some(0);
    }
    // the rules
    let mut rules: Vec<(usize, usize)> = Vec::new();
    let mut k: usize = 0;
    while k < sep
        invariant
            bytes_view(ls@) == lsv,
            lsv == lines_of(input.spec_bytes()),
            find_empty(lsv) == sep as int,
            0 <= k <= sep < ls@.len(),
            rules_upto(lsv, k as int) == Some(
                rules@.map_values(|p: (usize, usize)| (p.0 as int, p.1 as int)),
            ),
        decreases sep - k,
    {
        proof {
            assert(lsv[k as int] == ls@[k as int]@);
        }
        let ghost rv0 = rules@.map_values(|p: (usize, usize)| (p.0 as int, p.1 as int));
        match parse_rule_line(ls[k].as_slice()) {
            Some(rp) => {
                rules.push(rp);
                proof {
                    assert(rules@.map_values(|p: (usize, usize)| (p.0 as int, p.1 as int))
                        =~= rv0.push((rp.0 as int, rp.1 as int)));
                }
            },
            None => {
                proof {
                    assert(rules_upto(lsv, k + 1) is None);
                    lemma_rules_none(lsv, k + 1, sep as int);
                    assert(d05_parse(input.spec_bytes()) is None);
                }
                return Some(0);
            },
        }
        k = k + 1;
    }
    // the manuals, read back to front so the recursion unfolds per line
    let mut manuals: Vec<Vec<usize>> = Vec::new();
    let mut k2: usize = ls.len();
    while k2 > sep + 1
        invariant
            bytes_view(ls@) == lsv,
            lsv == lines_of(input.spec_bytes()),
            find_empty(lsv) == sep as int,
            rules_upto(lsv, sep as int) is Some,
            sep < ls@.len(),
            sep + 1 <= k2 <= ls@.len() || k2 == ls@.len(),
            k2 >= sep + 1 || k2 == ls@.len(),
            manuals_from(lsv, k2 as int) == Some(
                manuals@.map_values(|m: Vec<usize>| m@.map_values(|x: usize| x as int)),
            ),
        decreases k2,
    {
        k2 = k2 - 1;
        proof {
            assert(lsv[k2 as int] == ls@[k2 as int]@);
        }
        let ghost mv0 = manuals@.map_values(|m: Vec<usize>| m@.map_values(|x: usize| x as int));
        match parse_manual_line(ls[k2].as_slice()) {
            Some(m) => {
                manuals.insert(0, m);
                proof {
                    let mv = manuals@.map_values(
                        |m2: Vec<usize>| m2@.map_values(|x: usize| x as int),
                    );
                    assert(mv =~= seq![manual_line(lsv[k2 as int])->Some_0] + mv0);
                }
            },
            None => {
                proof {
                    assert(manuals_from(lsv, k2 as int) is None);
                    lemma_manuals_none(lsv, sep + 1, k2 as int);
                    assert(d05_parse(input.spec_bytes()) is None);
                }
                return Some(0);
            },
        }
    }
    proof {
        assert(manuals_from(lsv, sep + 1) == Some(
            manuals@.map_values(|m: Vec<usize>| m@.map_values(|x: usize| x as int)),
        ));
    }
    let ghost rv = rules@.map_values(|p: (usize, usize)| (p.0 as int, p.1 as int));
    let ghost mv = manuals@.map_values(|m: Vec<usize>| m@.map_values(|x: usize| x as int));
    proof {
        assert(d05_spec(input.spec_bytes(), part_two) == mid_sum(rv, mv, 0, part_two, 0));
    }
    // the middle-page sum
    let mut acc: u64 = 0;
    let mut t: usize = 0;
    while t < manuals.len()
        invariant
            rv == rules@.map_values(|p: (usize, usize)| (p.0 as int, p.1 as int)),
            mv == manuals@.map_values(|m: Vec<usize>| m@.map_values(|x: usize| x as int)),
            d05_spec(input.spec_bytes(), part_two) == mid_sum(rv, mv, 0, part_two, 0),
            0 <= t <= manuals@.len(),
            acc <= i32::MAX as u64,
            mid_sum(rv, mv, 0, part_two, 0) == mid_sum(rv, mv, t as int, part_two, acc as int),
        decreases manuals@.len() - t,
    {
        let m = &manuals[t];
        let valid = is_valid(&rules, m);
        let counted = if part_two {
            !valid
        } else {
            valid
        };
        if counted {
            if m.len() == 0 {
                return None;
            }
            let mid: usize = if part_two {
                let sorted = sort_pages(&rules, m);
                proof {
                    lemma_sort_by_len(rv, mv[t as int]);
                }
                sorted[m.len() / 2]
            } else {
                m[m.len() / 2]
            };
            proof {
                assert(mv[t as int].len() == m@.len());
            }
            if (acc as u128) + (mid as u128) > i32::MAX as u128 {
                return None;
            }
            acc = acc + (mid as u64);
        }
        t = t + 1;
    }
    Some(acc)
}

/// Sums the middle pages of the manuals already in rule order.
pub fn part1(input: &str) -> (r: Option<u64>)
    ensures
        match r {
            Some(v) => d05_spec(input.spec_bytes(), false) == Some(v as int),
            None => d05_spec(input.spec_bytes(), false) is None,
        },
{
    solve(input, false)
}

/// Reorders the broken manuals by the rules and sums their middle pages.
pub fn part2(input: &str) -> (r: Option<u64>)
    ensures
        match r {
            Some(v) => d05_spec(input.spec_bytes(), true) == Some(v as int),
            None => d05_spec(input.spec_bytes(), true) is None,
        },
{
    solve(input, true)
}

} // verus!
