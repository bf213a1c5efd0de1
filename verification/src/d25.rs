//! Schematics of locks (filled top row) and keys (filled bottom row), seven
//! lines each: a key fits a lock when no column's pin heights overlap.

use vstd::prelude::*;

use crate::util::{bytes_view, lines_of, split_lines};
use vstd::string::StringSliceAdditionalSpecFns;

verus! {

/// First empty line at or after `j`, or the line count.
pub open spec fn block_end(ls: Seq<Seq<u8>>, j: int) -> int
    decreases ls.len() - j,
{
    if j < 0 || j >= ls.len() {
        ls.len() as int
    } else if ls[j].len() == 0 {
        j
    } else {
        block_end(ls, j + 1)
    }
}

/// First row in `[lo, hi)` whose column `col` holds `want`; `None` when a row
/// is too short to look at or no row matches.
pub open spec fn col_first(ls: Seq<Seq<u8>>, lo: int, hi: int, col: int, want: u8) -> Option<int>
    decreases hi - lo,
{
    if lo < 0 || lo >= hi || hi > ls.len() {
        None
    } else if ls[lo].len() <= col {
        None
    } else if ls[lo][col] == want {
        Some(lo)
    } else {
        col_first(ls, lo + 1, hi, col, want)
    }
}

/// The five column heights of a block: for a lock, the first open cell's row
/// offset; for a key, five minus the first filled cell's row offset (which
/// must not pass five).
pub open spec fn heights(ls: Seq<Seq<u8>>, lo: int, hi: int, col: int, is_lock: bool) -> Option<
    Seq<int>,
>
    decreases 5 - col,
{
    if col >= 5 {
        Some(Seq::empty())
    } else {
        let want: u8 = if is_lock {
            46
        } else {
            35
        };
        match col_first(ls, lo, hi, col, want) {
            None => None,
            Some(p) => {
                let h = if is_lock {
                    p - lo
                } else {
                    5 - (p - lo)
                };
                if h < 0 || (is_lock && h > 255) {
                    None
                } else {
                    match heights(ls, lo, hi, col + 1, is_lock) {
                        None => None,
                        Some(rest) => Some(seq![h] + rest),
                    }
                }
            },
        }
    }
}

/// All the locks and keys of the schematic list from line `i` on.
pub open spec fn blocks_from(ls: Seq<Seq<u8>>, i: int) -> Option<(Seq<Seq<int>>, Seq<Seq<int>>)>
    decreases ls.len() - i,
{
    if i < 0 || i >= ls.len() {
        Some((Seq::empty(), Seq::empty()))
    } else {
        let first = ls[i];
        let e = block_end(ls, i + 1);
        let is_lock = first.len() > 0 && first[0] == 35;
        if e < i + 1 {
            None
        } else {
            let nxt = if e + 1 <= ls.len() {
                e + 1
            } else {
                ls.len() as int
            };
            match heights(ls, i + 1, e, 0, is_lock) {
                None => None,
                Some(h) => match blocks_from(ls, nxt) {
                    None => None,
                    Some(rest) => if is_lock {
                        Some((seq![h] + rest.0, rest.1))
                    } else {
                        Some((rest.0, seq![h] + rest.1))
                    },
                },
            }
        }
    }
}

pub proof fn lemma_block_end_ge(ls: Seq<Seq<u8>>, j: int)
    requires
        0 <= j,
    ensures
        j <= block_end(ls, j) <= ls.len() || j >= ls.len(),
    decreases ls.len() - j,
{
    if j < ls.len() && ls[j].len() != 0 {
        lemma_block_end_ge(ls, j + 1);
    }
}

/// A key fits a lock when every column's heights sum to at most five.
pub open spec fn fits(key: Seq<int>, lock: Seq<int>) -> bool {
    &&& key.len() == 5
    &&& lock.len() == 5
    &&& forall|c: int| 0 <= c < 5 ==> (#[trigger] key[c]) + lock[c] <= 5
}

/// The number of fitting lock/key pairs, bailing near `usize::MAX`.
pub open spec fn fit_fold(
    locks: Seq<Seq<int>>,
    keys: Seq<Seq<int>>,
    li: int,
    ki: int,
    acc: int,
) -> Option<int>
    decreases locks.len() - li, keys.len() + 1 - ki,
{
    if li < 0 || ki < 0 || li >= locks.len() {
        Some(acc)
    } else if ki >= keys.len() {
        fit_fold(locks, keys, li + 1, 0, acc)
    } else if acc >= usize::MAX {
        None
    } else {
        fit_fold(
            locks,
            keys,
            li,
            ki + 1,
            acc + if fits(keys[ki], locks[li]) {
                1int
            } else {
                0int
            },
        )
    }
}

pub open spec fn d25_part1_spec(s: Seq<u8>) -> Option<int> {
    match blocks_from(lines_of(s), 0) {
        None => None,
        Some(p) => fit_fold(p.0, p.1, 0, 0, 0),
    }
}

/// The sequence in an optional value, or empty.
pub open spec fn rest_or_empty(o: Option<Seq<int>>) -> Seq<int> {
    match o {
        Some(r) => r,
        None => Seq::empty(),
    }
}

/// The heights of one block's five columns.
fn block_heights(ls: &Vec<Vec<u8>>, lo: usize, hi: usize, is_lock: bool) -> (r: Option<Vec<u8>>)
    requires
        lo <= hi <= ls@.len(),
    ensures
        match r {
            Some(h) => heights(bytes_view(ls@), lo as int, hi as int, 0, is_lock) == Some(
                h@.map_values(|x: u8| x as int),
            ) && h@.len() == 5,
            None => heights(bytes_view(ls@), lo as int, hi as int, 0, is_lock) is None,
        },
{
    let ghost lsv = bytes_view(ls@);
    let mut h: Vec<u8> = Vec::new();
    let mut col: usize = 0;
    while col < 5
        invariant
            lsv == bytes_view(ls@),
            lo <= hi <= ls@.len(),
            0 <= col <= 5,
            h@.len() == col,
            match heights(lsv, lo as int, hi as int, col as int, is_lock) {
                Some(rest) => heights(lsv, lo as int, hi as int, 0, is_lock) == Some(
                    h@.map_values(|x: u8| x as int) + rest,
                ),
                None => heights(lsv, lo as int, hi as int, 0, is_lock) is None,
            },
        decreases 5 - col,
    {
        let want: u8 = if is_lock {
            46
        } else {
            35
        };
        // scan the block's rows for this column
        let mut row: usize = lo;
        let mut found: Option<usize> = None;
        let mut short = false;
        while row < hi && found.is_none() && !short
            invariant
                lsv == bytes_view(ls@),
                lo <= row <= hi <= ls@.len(),
                found is None && !short ==> col_first(lsv, lo as int, hi as int, col as int, want)
                    == col_first(lsv, row as int, hi as int, col as int, want),
                found matches Some(p) ==> col_first(lsv, lo as int, hi as int, col as int, want)
                    == Some(p as int) && lo <= p < hi,
                short ==> col_first(lsv, lo as int, hi as int, col as int, want) is None,
            decreases hi - row,
                (if found.is_none() && !short {
                    1int
                } else {
                    0int
                }),
        {
            proof {
                assert(lsv[row as int] == ls@[row as int]@);
            }
            let line = &ls[row];
            if line.len() <= col {
                // a row too short to look at: no pin boundary to measure
                short = true;
            } else if line[col] == want {
                found = Some(row);
            } else {
                row = row + 1;
            }
        }
        let p = match found {
            Some(p) => p,
            None => {
                // no boundary found, or a row too short to look at
                return None;
            },
        };
        let off = p - lo;
        let v: u8 = if is_lock {
            if off > 255 {
                return None;
            }
            off as u8
        } else {
            if off > 5 {
                return None;
            }
            (5 - off) as u8
        };
        let ghost h0 = h@.map_values(|x: u8| x as int);
        h.push(v);
        proof {
            assert(h@.map_values(|x: u8| x as int) =~= h0 + seq![v as int]);
            let hc1 = heights(lsv, lo as int, hi as int, col + 1, is_lock);
            if hc1 is Some {
                assert(h0 + (seq![v as int] + hc1->Some_0) =~= (h0 + seq![v as int])
                    + hc1->Some_0);
            }
        }
        col = col + 1;
    }
    proof {
        assert(heights(lsv, lo as int, hi as int, 5, is_lock) == Some(Seq::<int>::empty()));
        assert(h@.map_values(|x: u8| x as int) + Seq::<int>::empty() =~= h@.map_values(
            |x: u8| x as int,
        ));
    }
    Some(h)
}

/// Parses the schematics and counts the lock/key pairs that fit.
///
/// Returns `None` exactly when a block column has no pin boundary to measure
/// or a row is too short, or the count nears `usize::MAX`.
pub fn part1(input: &str) -> (r: Option<usize>)
    ensures
        match r {
            Some(v) => d25_part1_spec(input.spec_bytes()) == Some(v as int),
            None => d25_part1_spec(input.spec_bytes()) is None,
        },
{
    let bytes = input.as_bytes();
    let ls = split_lines(bytes);
    let ghost lsv = lines_of(input.spec_bytes());
    let mut locks: Vec<Vec<u8>> = Vec::new();
    let mut keys: Vec<Vec<u8>> = Vec::new();
    let mut i: usize = 0;
    while i < ls.len()
        invariant
            bytes_view(ls@) == lsv,
            lsv == lines_of(input.spec_bytes()),
            0 <= i <= ls@.len(),
            forall|k: int| 0 <= k < locks@.len() ==> (#[trigger] locks@[k])@.len() == 5,
            forall|k: int| 0 <= k < keys@.len() ==> (#[trigger] keys@[k])@.len() == 5,
            blocks_from(lsv, 0) matches Some(all) ==> blocks_from(lsv, i as int) matches Some(rest)
                && all.0 == locks@.map_values(|x: Vec<u8>| x@.map_values(|y: u8| y as int))
                + rest.0 && all.1 == keys@.map_values(|x: Vec<u8>| x@.map_values(|y: u8| y as int))
                + rest.1,
            blocks_from(lsv, 0) is Some <==> blocks_from(lsv, i as int) is Some,
        decreases ls@.len() - i,
    {
        proof {
            assert(lsv[i as int] == ls@[i as int]@);
        }
        let first = &ls[i];
        let is_lock = first.len() > 0 && first[0] == 35;
        // find the block's end: the next empty line
        let mut e: usize = i + 1;
        while e < ls.len() && ls[e].len() != 0
            invariant
                bytes_view(ls@) == lsv,
                i + 1 <= e <= ls@.len(),
                block_end(lsv, i + 1) == block_end(lsv, e as int),
            decreases ls@.len() - e,
        {
            proof {
                assert(lsv[e as int] == ls@[e as int]@);
            }
            e = e + 1;
        }
        proof {
            if e < ls@.len() {
                assert(lsv[e as int] == ls@[e as int]@);
            }
            assert(block_end(lsv, i + 1) == e as int);
            lemma_block_end_ge(lsv, i + 1);
        }
        let h = match block_heights(&ls, i + 1, e, is_lock) {
            Some(h) => h,
            None => {
                proof {
                    assert(blocks_from(lsv, i as int) is None);
                    assert(d25_part1_spec(input.spec_bytes()) is None);
                }
                return None;
            },
        };
        let ghost locks0 = locks@.map_values(|x: Vec<u8>| x@.map_values(|y: u8| y as int));
        let ghost keys0 = keys@.map_values(|x: Vec<u8>| x@.map_values(|y: u8| y as int));
        let ghost hv = h@.map_values(|y: u8| y as int);
        if is_lock {
            locks.push(h);
            proof {
                assert(locks@.map_values(|x: Vec<u8>| x@.map_values(|y: u8| y as int)) =~= locks0
                    + seq![hv]);
                if blocks_from(lsv, 0) matches Some(all) {
                    assert((locks0 + seq![hv]) + (blocks_from(lsv, e + 1)->Some_0).0 =~= locks0 + (
                    seq![hv] + (blocks_from(lsv, e + 1)->Some_0).0));
                }
            }
        } else {
            keys.push(h);
            proof {
                assert(keys@.map_values(|x: Vec<u8>| x@.map_values(|y: u8| y as int)) =~= keys0
                    + seq![hv]);
                if blocks_from(lsv, 0) matches Some(all) {
                    assert((keys0 + seq![hv]) + (blocks_from(lsv, e + 1)->Some_0).1 =~= keys0 + (
                    seq![hv] + (blocks_from(lsv, e + 1)->Some_0).1));
                }
            }
        }
        if e >= ls.len() {
            i = ls.len();
        } else {
            i = e + 1;
        }
    }
    let ghost locksv = locks@.map_values(|x: Vec<u8>| x@.map_values(|y: u8| y as int));
    let ghost keysv = keys@.map_values(|x: Vec<u8>| x@.map_values(|y: u8| y as int));
    proof {
        assert(blocks_from(lsv, i as int) == Some(
            (Seq::<Seq<int>>::empty(), Seq::<Seq<int>>::empty()),
        ));
        let b0 = blocks_from(lsv, 0);
        assert(b0 is Some);
        assert(b0->Some_0.0 =~= locksv + Seq::<Seq<int>>::empty());
        assert(b0->Some_0.1 =~= keysv + Seq::<Seq<int>>::empty());
        assert(b0 == Some((locksv, keysv)));
        assert(d25_part1_spec(input.spec_bytes()) == fit_fold(locksv, keysv, 0, 0, 0));
    }
    // count the fitting pairs
    let mut count: usize = 0;
    let mut li: usize = 0;
    while li < locks.len()
        invariant
            locksv == locks@.map_values(|x: Vec<u8>| x@.map_values(|y: u8| y as int)),
            keysv == keys@.map_values(|x: Vec<u8>| x@.map_values(|y: u8| y as int)),
            d25_part1_spec(input.spec_bytes()) == fit_fold(locksv, keysv, 0, 0, 0),
            forall|k: int| 0 <= k < locks@.len() ==> (#[trigger] locks@[k])@.len() == 5,
            forall|k: int| 0 <= k < keys@.len() ==> (#[trigger] keys@[k])@.len() == 5,
            0 <= li <= locks@.len(),
            fit_fold(locksv, keysv, 0, 0, 0) == fit_fold(locksv, keysv, li as int, 0, count as int),
        decreases locks@.len() - li,
    {
        let mut ki: usize = 0;
        while ki < keys.len()
            invariant
                locksv == locks@.map_values(|x: Vec<u8>| x@.map_values(|y: u8| y as int)),
                keysv == keys@.map_values(|x: Vec<u8>| x@.map_values(|y: u8| y as int)),
                d25_part1_spec(input.spec_bytes()) == fit_fold(locksv, keysv, 0, 0, 0),
                forall|k: int| 0 <= k < locks@.len() ==> (#[trigger] locks@[k])@.len() == 5,
                forall|k: int| 0 <= k < keys@.len() ==> (#[trigger] keys@[k])@.len() == 5,
                0 <= li < locks@.len(),
                0 <= ki <= keys@.len(),
                fit_fold(locksv, keysv, 0, 0, 0) == fit_fold(
                    locksv,
                    keysv,
                    li as int,
                    ki as int,
                    count as int,
                ),
            decreases keys@.len() - ki,
        {
            if count >= usize::MAX {
                return None;
            }
            let lock = &locks[li];
            let key = &keys[ki];
            let mut ok = true;
            let mut c: usize = 0;
            while c < 5
                invariant
                    li < locks@.len(),
                    ki < keys@.len(),
                    lock == locks@[li as int],
                    key == keys@[ki as int],
                    lock@.len() == 5,
                    key@.len() == 5,
                    0 <= c <= 5,
                    ok <==> forall|t: int|
                        0 <= t < c ==> (#[trigger] key@[t]) as int + lock@[t] as int <= 5,
                decreases 5 - c,
            {
                if key[c] as u64 + lock[c] as u64 > 5 {
                    ok = false;
                    proof {
                        assert(key@[c as int] as int + lock@[c as int] as int > 5);
                    }
                }
                c = c + 1;
            }
            proof {
                let kv = keysv[ki as int];
                let lv = locksv[li as int];
                assert(kv == key@.map_values(|y: u8| y as int));
                assert(lv == lock@.map_values(|y: u8| y as int));
                if ok {
                    assert forall|t: int| 0 <= t < 5 implies (#[trigger] kv[t]) + lv[t] <= 5 by {
                        assert(kv[t] == key@[t] as int);
                        assert(lv[t] == lock@[t] as int);
                        assert(key@[t] as int + lock@[t] as int <= 5);
                    }
                    assert(fits(kv, lv));
                } else {
                    if fits(kv, lv) {
                        assert forall|t: int|
                            0 <= t < 5 implies (#[trigger] key@[t]) as int + lock@[t] as int
                                <= 5 by {
                            assert(kv[t] == key@[t] as int);
                            assert(lv[t] == lock@[t] as int);
                            assert(kv[t] + lv[t] <= 5);
                        }
                    }
                    assert(!fits(kv, lv));
                }
            }
            if ok {
                count = count + 1;
            }
            ki = ki + 1;
        }
        li = li + 1;
    }
    Some(count)
}

/// The second half of this puzzle asks for nothing to compute.
pub fn part2(_input: &str) -> (r: usize)
    ensures
        r == 0,
{
    0
}

} // verus!
