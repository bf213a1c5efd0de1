//! Two columns of numbers: part one pairs them up in sorted order and sums
//! the distances; part two sums each left number weighted by how often it
//! appears on the right.

use vstd::prelude::*;

use crate::util::{bytes_view, int_val, int_wf, lines_of, parse_i64, split_lines, split_ws,
    split_whitespace_bytes};
use vstd::string::StringSliceAdditionalSpecFns;

verus! {

/// A line holds at least two whitespace-separated `i64` numbers; the rest of
/// the line is ignored.
pub open spec fn pair_line_ok(l: Seq<u8>) -> bool {
    let p = split_ws(l);
    &&& p.len() >= 2
    &&& int_wf(p[0]) && i64::MIN <= int_val(p[0]) <= i64::MAX
    &&& int_wf(p[1]) && i64::MIN <= int_val(p[1]) <= i64::MAX
}

/// The two numbers on a line.
pub open spec fn pair_of_line(l: Seq<u8>) -> (int, int) {
    (int_val(split_ws(l)[0]), int_val(split_ws(l)[1]))
}

/// Every line parses.
pub open spec fn columns_ok(s: Seq<u8>) -> bool {
    forall|j: int| 0 <= j < lines_of(s).len() ==> pair_line_ok(#[trigger] lines_of(s)[j])
}

/// The left column.
pub open spec fn left_col(s: Seq<u8>) -> Seq<int> {
    lines_of(s).map_values(|l: Seq<u8>| pair_of_line(l).0)
}

/// The right column.
pub open spec fn right_col(s: Seq<u8>) -> Seq<int> {
    lines_of(s).map_values(|l: Seq<u8>| pair_of_line(l).1)
}

/// Insertion into a sorted sequence.
pub open spec fn sorted_insert(s: Seq<int>, x: int) -> Seq<int>
    decreases s.len(),
{
    if s.len() == 0 {
        seq![x]
    } else if x <= s[0] {
        seq![x] + s
    } else {
        seq![s[0]] + sorted_insert(s.skip(1), x)
    }
}

/// Insertion sort of a sequence.
pub open spec fn sort_ints(s: Seq<int>) -> Seq<int>
    decreases s.len(),
{
    if s.len() == 0 {
        Seq::empty()
    } else {
        sorted_insert(sort_ints(s.drop_last()), s.last())
    }
}

/// Inserting at the position found by a left-to-right scan is `sorted_insert`.
proof fn lemma_sorted_insert_at(s: Seq<int>, x: int, p: int)
    requires
        0 <= p <= s.len(),
        forall|j: int| 0 <= j < p ==> s[j] < x,
        p < s.len() ==> x <= s[p],
    ensures
        sorted_insert(s, x) == s.subrange(0, p) + seq![x] + s.skip(p),
    decreases p,
{
    if p == 0 {
        if s.len() == 0 {
            assert(sorted_insert(s, x) =~= s.subrange(0, 0) + seq![x] + s.skip(0));
        } else {
            assert(sorted_insert(s, x) == seq![x] + s);
            assert(seq![x] + s =~= s.subrange(0, 0) + seq![x] + s.skip(0));
        }
    } else {
        assert(s[0] < x);
        assert forall|j: int| 0 <= j < p - 1 implies s.skip(1)[j] < x by {
            assert(s.skip(1)[j] == s[j + 1]);
        }
        assert(p - 1 < s.skip(1).len() ==> x <= s.skip(1)[p - 1]);
        lemma_sorted_insert_at(s.skip(1), x, p - 1);
        assert(sorted_insert(s, x) == seq![s[0]] + (s.skip(1).subrange(0, p - 1) + seq![x]
            + s.skip(1).skip(p - 1)));
        assert(seq![s[0]] + s.skip(1).subrange(0, p - 1) =~= s.subrange(0, p));
        assert(s.skip(1).skip(p - 1) =~= s.skip(p));
        assert(seq![s[0]] + (s.skip(1).subrange(0, p - 1) + seq![x] + s.skip(1).skip(p - 1)) =~= s.subrange(
            0,
            p,
        ) + seq![x] + s.skip(p));
    }
}

/// Sorts the numbers ascending (insertion sort).
pub fn sort_vec(v: &Vec<i64>) -> (r: Vec<i64>)
    ensures
        r@.map_values(|x: i64| x as int) == sort_ints(v@.map_values(|x: i64| x as int)),
{
    let mut r: Vec<i64> = Vec::new();
    let mut k: usize = 0;
    proof {
        assert(v@.map_values(|x: i64| x as int).take(0) =~= Seq::<int>::empty());
        assert(r@.map_values(|x: i64| x as int) =~= sort_ints(
            v@.map_values(|x: i64| x as int).take(0),
        ));
    }
    while k < v.len()
        invariant
            0 <= k <= v@.len(),
            r@.len() == k,
            r@.map_values(|x: i64| x as int) == sort_ints(
                v@.map_values(|x: i64| x as int).take(k as int),
            ),
        decreases v@.len() - k,
    {
        let x = v[k];
        let mut p: usize = 0;
        while p < r.len() && r[p] < x
            invariant
                0 <= p <= r@.len(),
                forall|j: int| 0 <= j < p ==> (#[trigger] r@[j]) < x,
            decreases r@.len() - p,
        {
            p = p + 1;
        }
        let ghost rs = r@.map_values(|y: i64| y as int);
        r.insert(p, x);
        proof {
            let full = v@.map_values(|y: i64| y as int);
            assert(full.take(k + 1).drop_last() =~= full.take(k as int));
            assert(full.take(k + 1).last() == full[k as int]);
            assert(full[k as int] == x as int);
            assert forall|j: int| 0 <= j < p implies rs[j] < x as int by {
                assert(rs[j] == r@.map_values(|y: i64| y as int)[j] || true);
            }
            lemma_sorted_insert_at(rs, x as int, p as int);
            assert(r@.map_values(|y: i64| y as int) =~= rs.subrange(0, p as int) + seq![x as int]
                + rs.skip(p as int));
        }
        k = k + 1;
    }
    proof {
        assert(v@.map_values(|x: i64| x as int).take(v@.len() as int) =~= v@.map_values(
            |x: i64| x as int,
        ));
    }
    r
}

/// Parses the two columns.  Returns them exactly when every line parses.
pub fn parse_columns(input: &str) -> (r: Option<(Vec<i64>, Vec<i64>)>)
    ensures
        match r {
            Some(p) => columns_ok(input.spec_bytes()) && p.0@.map_values(|x: i64| x as int)
                == left_col(input.spec_bytes()) && p.1@.map_values(|x: i64| x as int) == right_col(
                input.spec_bytes(),
            ),
            None => !columns_ok(input.spec_bytes()),
        },
{
    let bytes = input.as_bytes();
    let ls = split_lines(bytes);
    let ghost lsv = lines_of(input.spec_bytes());
    let mut left: Vec<i64> = Vec::new();
    let mut right: Vec<i64> = Vec::new();
    let mut j: usize = 0;
    while j < ls.len()
        invariant
            bytes_view(ls@) == lsv,
            lsv == lines_of(input.spec_bytes()),
            0 <= j <= ls@.len(),
            left@.len() == j,
            right@.len() == j,
            forall|k: int| 0 <= k < j ==> pair_line_ok(#[trigger] lsv[k]),
            forall|k: int|
                0 <= k < j ==> (#[trigger] left@[k]) as int == pair_of_line(lsv[k]).0,
            forall|k: int|
                0 <= k < j ==> (#[trigger] right@[k]) as int == pair_of_line(lsv[k]).1,
        decreases ls@.len() - j,
    {
        proof {
            assert(lsv[j as int] == ls@[j as int]@);
        }
        let pieces = split_whitespace_bytes(ls[j].as_slice());
        if pieces.len() < 2 {
            return None;
        }
        proof {
            assert(bytes_view(pieces@)[0] == pieces@[0]@);
            assert(bytes_view(pieces@)[1] == pieces@[1]@);
        }
        let a = match parse_i64(pieces[0].as_slice()) {
            Some(a) => a,
            None => {
                return None;
            },
        };
        let b = match parse_i64(pieces[1].as_slice()) {
            Some(b) => b,
            None => {
                return None;
            },
        };
        left.push(a);
        right.push(b);
        j = j + 1;
    }
    proof {
        assert(left@.map_values(|x: i64| x as int) =~= left_col(input.spec_bytes()));
        assert(right@.map_values(|x: i64| x as int) =~= right_col(input.spec_bytes()));
    }
    Some((left, right))
}

/// Sum of pairwise distances, with the running total required to stay in
/// `i64` range; `None` marks the first prefix where it leaves it.
pub open spec fn dist_fold(a: Seq<int>, b: Seq<int>, k: int, acc: int) -> Option<int>
    decreases a.len() - k,
{
    if k < 0 || k >= a.len() || a.len() != b.len() {
        Some(acc)
    } else {
        let d = if a[k] >= b[k] {
            a[k] - b[k]
        } else {
            b[k] - a[k]
        };
        if acc + d > i64::MAX {
            None
        } else {
            dist_fold(a, b, k + 1, acc + d)
        }
    }
}

/// The total distance between the sorted columns.
pub open spec fn d01_part1_spec(s: Seq<u8>) -> Option<int> {
    if columns_ok(s) {
        dist_fold(sort_ints(left_col(s)), sort_ints(right_col(s)), 0, 0)
    } else {
        None
    }
}

/// Sorts both columns and sums the distances of the pairs at equal ranks.
///
/// Returns `None` exactly when a line does not hold two numbers or the
/// running total leaves `i64` range.
pub fn part1(input: &str) -> (r: Option<i64>)
    ensures
        match r {
            Some(v) => d01_part1_spec(input.spec_bytes()) == Some(v as int),
            None => d01_part1_spec(input.spec_bytes()) is None,
        },
{
    let (left, right) = match parse_columns(input) {
        Some(p) => p,
        None => {
            return None;
        },
    };
    let sl = sort_vec(&left);
    let sr = sort_vec(&right);
    let ghost sa = sl@.map_values(|x: i64| x as int);
    let ghost sb = sr@.map_values(|x: i64| x as int);
    let mut acc: i64 = 0;
    let mut k: usize = 0;
    proof {
        lemma_sort_len(left_col(input.spec_bytes()));
        lemma_sort_len(right_col(input.spec_bytes()));
    }
    while k < sl.len()
        invariant
            columns_ok(input.spec_bytes()),
            sa == sort_ints(left_col(input.spec_bytes())),
            sb == sort_ints(right_col(input.spec_bytes())),
            sa == sl@.map_values(|x: i64| x as int),
            sb == sr@.map_values(|x: i64| x as int),
            sa.len() == sl@.len(),
            sb.len() == sr@.len(),
            sl@.len() == sr@.len(),
            0 <= k <= sl@.len(),
            acc >= 0,
            dist_fold(sa, sb, 0, 0) == dist_fold(sa, sb, k as int, acc as int),
        decreases sl@.len() - k,
    {
        let x = sl[k];
        let y = sr[k];
        // the distance of two `i64` values can exceed `i64`, so it is taken
        // through `i128`
        let d: i128 = if x >= y {
            (x as i128) - (y as i128)
        } else {
            (y as i128) - (x as i128)
        };
        proof {
            assert(sa[k as int] == x as int && sb[k as int] == y as int);
        }
        if (acc as i128) + d > i64::MAX as i128 {
            return None;
        }
        proof {
            assert(dist_fold(sa, sb, k as int, acc as int) == dist_fold(
                sa,
                sb,
                k + 1,
                acc as int + d as int,
            ));
        }
        acc = ((acc as i128) + d) as i64;
        k = k + 1;
    }
    Some(acc)
}

proof fn lemma_sort_len(s: Seq<int>)
    ensures
        sort_ints(s).len() == s.len(),
    decreases s.len(),
{
    if s.len() > 0 {
        lemma_sort_len(s.drop_last());
        lemma_insert_len(sort_ints(s.drop_last()), s.last());
    }
}

proof fn lemma_insert_len(s: Seq<int>, x: int)
    ensures
        sorted_insert(s, x).len() == s.len() + 1,
    decreases s.len(),
{
    if s.len() > 0 && !(x <= s[0]) {
        lemma_insert_len(s.skip(1), x);
    }
}

/// Sum of each left number times its multiplicity on the right, the running
/// total again required to stay in `i64` range.
pub open spec fn count_in(s: Seq<int>, x: int) -> int
    decreases s.len(),
{
    if s.len() == 0 {
        0
    } else {
        count_in(s.drop_last(), x) + if s.last() == x {
            1int
        } else {
            0int
        }
    }
}

pub open spec fn sim_fold(a: Seq<int>, b: Seq<int>, k: int, acc: int) -> Option<int>
    decreases a.len() - k,
{
    if k < 0 || k >= a.len() {
        Some(acc)
    } else {
        let t = acc + a[k] * count_in(b, a[k]);
        if t > i64::MAX || t < i64::MIN {
            None
        } else {
            sim_fold(a, b, k + 1, t)
        }
    }
}

/// The similarity score of the two columns.
pub open spec fn d01_part2_spec(s: Seq<u8>) -> Option<int> {
    if columns_ok(s) {
        sim_fold(left_col(s), right_col(s), 0, 0)
    } else {
        None
    }
}

proof fn lemma_count_in_range(s: Seq<int>, x: int)
    ensures
        0 <= count_in(s, x) <= s.len(),
    decreases s.len(),
{
    if s.len() > 0 {
        lemma_count_in_range(s.drop_last(), x);
    }
}

/// Counts how often `x` appears in `v`.
fn count_occurrences(v: &Vec<i64>, x: i64) -> (r: usize)
    ensures
        r as int == count_in(v@.map_values(|y: i64| y as int), x as int),
{
    let mut cnt: usize = 0;
    let mut k: usize = 0;
    let ghost vs = v@.map_values(|y: i64| y as int);
    proof {
        assert(vs.take(0) =~= Seq::<int>::empty());
    }
    while k < v.len()
        invariant
            vs == v@.map_values(|y: i64| y as int),
            0 <= k <= v@.len(),
            cnt <= k,
            cnt as int == count_in(vs.take(k as int), x as int),
        decreases v@.len() - k,
    {
        proof {
            assert(vs.take(k + 1).drop_last() =~= vs.take(k as int));
            assert(vs.take(k + 1).last() == vs[k as int]);
        }
        if v[k] == x {
            cnt = cnt + 1;
        }
        k = k + 1;
    }
    proof {
        assert(vs.take(vs.len() as int) =~= vs);
    }
    cnt
}

/// Sums each left number times how often it appears on the right.
///
/// Returns `None` exactly when a line does not hold two numbers or the
/// running total leaves `i64` range.
pub fn part2(input: &str) -> (r: Option<i64>)
    ensures
        match r {
            Some(v) => d01_part2_spec(input.spec_bytes()) == Some(v as int),
            None => d01_part2_spec(input.spec_bytes()) is None,
        },
{
    let (left, right) = match parse_columns(input) {
        Some(p) => p,
        None => {
            return None;
        },
    };
    let ghost la = left@.map_values(|x: i64| x as int);
    let ghost rb = right@.map_values(|x: i64| x as int);
    let mut acc: i64 = 0;
    let mut k: usize = 0;
    while k < left.len()
        invariant
            columns_ok(input.spec_bytes()),
            la == left_col(input.spec_bytes()),
            rb == right_col(input.spec_bytes()),
            la == left@.map_values(|x: i64| x as int),
            rb == right@.map_values(|x: i64| x as int),
            la.len() == left@.len(),
            0 <= k <= left@.len(),
            sim_fold(la, rb, 0, 0) == sim_fold(la, rb, k as int, acc as int),
        decreases left@.len() - k,
    {
        let x = left[k];
        let cnt = count_occurrences(&right, x);
        proof {
            lemma_count_in_range(rb, x as int);
            assert((x as int) * (cnt as int) <= 170141183460469231722463931679029329920 && (
            x as int) * (cnt as int) >= -170141183460469231722463931679029329920)
                by (nonlinear_arith)
                requires
                    -9223372036854775808 <= x as int <= 9223372036854775807,
                    0 <= cnt as int <= 18446744073709551615,
            {}
        }
        let t: i128 = (acc as i128) + (x as i128) * (cnt as i128);
        proof {
            assert(t as int == acc as int + (x as int) * (cnt as int)) by (nonlinear_arith)
                requires
                    t as int == (acc as i128) as int + ((x as i128) * (cnt as i128)) as int,
                    (acc as i128) as int == acc as int,
                    ((x as i128) * (cnt as i128)) as int == (x as int) * (cnt as int),
            {}
            assert(la[k as int] == x as int);
        }
        if t > i64::MAX as i128 || t < i64::MIN as i128 {
            return None;
        }
        proof {
            assert(sim_fold(la, rb, k as int, acc as int) == sim_fold(la, rb, k + 1, t as int));
        }
        acc = t as i64;
        k = k + 1;
    }
    Some(acc)
}

} // verus!
