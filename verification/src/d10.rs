//! A rectangular height map of digits: a trail climbs from 0 to 9 one step
//! of height at a time.  Part one scores each trailhead by the peaks it can
//! reach; part two rates it by the number of distinct trails.
//!
//! Both parts return `None` when a byte is below `'0'`, the map is not
//! rectangular, or a count leaves its range.

use vstd::prelude::*;

use crate::util::{bytes_view, lines_of, split_lines};
use vstd::string::StringSliceAdditionalSpecFns;

verus! {

/// A rectangular grid of small heights.
pub open spec fn rect(g: Seq<Vec<u8>>, w: int, h: int) -> bool {
    &&& g.len() == h
    &&& forall|y: int| 0 <= y < h ==> (#[trigger] g[y])@.len() == w
    &&& forall|y: int, x: int| 0 <= y < h && 0 <= x < w ==> (#[trigger] g[y]@[x]) <= 250
}

/// The height map; `None` on a byte below `'0'` or ragged lines.
fn create_map(input: &str) -> (r: Option<(Vec<Vec<u8>>, usize, usize)>)
    ensures
        r matches Some(g) ==> rect(g.0@, g.1 as int, g.2 as int) && g.1 * g.2 <= usize::MAX,
{
    let bytes = input.as_bytes();
    let ls = split_lines(bytes);
    let mut g: Vec<Vec<u8>> = Vec::new();
    let h = ls.len();
    let w = if h == 0 {
        0
    } else {
        ls[0].len()
    };
    let mut y: usize = 0;
    while y < h
        invariant
            h == ls@.len(),
            0 <= y <= h,
            g@.len() == y,
            forall|t: int| 0 <= t < y ==> (#[trigger] g@[t])@.len() == w,
            forall|t: int, x: int|
                0 <= t < y && 0 <= x < w ==> (#[trigger] g@[t]@[x]) <= 250,
        decreases h - y,
    {
        let line = &ls[y];
        if line.len() != w {
            return None;
        }
        let mut row: Vec<u8> = Vec::new();
        let mut x: usize = 0;
        while x < w
            invariant
                line@.len() == w,
                0 <= x <= w,
                row@.len() == x,
                forall|t: int| 0 <= t < x ==> (#[trigger] row@[t]) <= 250,
            decreases w - x,
        {
            let b = line[x];
            if b < 48 {
                return None;
            }
            row.push(b - 48);
            x = x + 1;
        }
        g.push(row);
        y = y + 1;
    }
    if w != 0 && h > usize::MAX / w {
        return None;
    }
    proof {
        if w == 0 {
            assert((w as int) * (h as int) == 0) by (nonlinear_arith)
                requires
                    w as int == 0,
            {}
        } else {
            assert((w as int) * (h as int) <= usize::MAX) by (nonlinear_arith)
                requires
                    w as int >= 1,
                    0 <= h as int <= (usize::MAX as int) / (w as int),
            {}
        }
    }
    Some((g, w, h))
}

/// Marks every cell reachable from `(x, y)` by steps of exactly one height.
fn mark(g: &Vec<Vec<u8>>, w: usize, h: usize, x: usize, y: usize, visited: &mut Vec<bool>)
    requires
        rect(g@, w as int, h as int),
        w * h <= usize::MAX,
        x < w,
        y < h,
        old(visited)@.len() == w * h,
    ensures
        final(visited)@.len() == w * h,
    decreases 255 - g@[y as int]@[x as int],
{
    proof {
        crate::d18::lemma_rowcol(w as int, h as int, y as int, x as int);
    }
    let idx = y * w + x;
    if visited[idx] {
        return ;
    }
    visited.set(idx, true);
    let v = g[y][x];
    if v == 9 {
        return ;
    }
    let next = v + 1;
    if x > 0 {
        if g[y][x - 1] == next {
            mark(g, w, h, x - 1, y, visited);
        }
    }
    if x + 1 < w {
        if g[y][x + 1] == next {
            mark(g, w, h, x + 1, y, visited);
        }
    }
    if y > 0 {
        if g[y - 1][x] == next {
            mark(g, w, h, x, y - 1, visited);
        }
    }
    if y + 1 < h {
        if g[y + 1][x] == next {
            mark(g, w, h, x, y + 1, visited);
        }
    }
}

/// Sums, over the trailheads (height 0), how many peaks (height 9) each can
/// reach by climbing one height at a time.
pub fn part1(input: &str) -> (r: Option<u64>)
{
    let (g, w, h) = match create_map(input) {
        Some(p) => p,
        None => {
            return None;
        },
    };
    let mut total: u64 = 0;
    let mut y: usize = 0;
    while y < h
        invariant
            rect(g@, w as int, h as int),
            w * h <= usize::MAX,
            0 <= y <= h,
        decreases h - y,
    {
        let mut x: usize = 0;
        while x < w
            invariant
                rect(g@, w as int, h as int),
                w * h <= usize::MAX,
                0 <= y < h,
                0 <= x <= w,
            decreases w - x,
        {
            if g[y][x] == 0 {
                // score this trailhead
                let mut visited: Vec<bool> = Vec::new();
                let n = w * h;
                let mut t: usize = 0;
                while t < n
                    invariant
                        0 <= t <= n,
                        visited@.len() == t,
                    decreases n - t,
                {
                    visited.push(false);
                    t = t + 1;
                }
                mark(&g, w, h, x, y, &mut visited);
                let mut yy: usize = 0;
                let mut score: u64 = 0;
                proof {
                    assert(0int * (w as int) == 0) by (nonlinear_arith);
                }
                while yy < h
                    invariant
                        rect(g@, w as int, h as int),
                        w * h <= usize::MAX,
                        visited@.len() == w * h,
                        0 <= yy <= h,
                        score <= (yy * w) as u64,
                    decreases h - yy,
                {
                    let mut xx: usize = 0;
                    proof {
                        assert((yy as int) * (w as int) + 0 <= (w as int) * (h as int))
                            by (nonlinear_arith)
                            requires
                                0 <= (yy as int) && (yy as int) < (h as int),
                                (w as int) >= 0,
                        {}
                    }
                    while xx < w
                        invariant
                            rect(g@, w as int, h as int),
                            w * h <= usize::MAX,
                            visited@.len() == w * h,
                            0 <= yy < h,
                            0 <= xx <= w,
                            score <= (yy * w + xx) as u64,
                            yy * w + xx <= w * h,
                        decreases w - xx,
                    {
                        proof {
                            crate::d18::lemma_rowcol(w as int, h as int, yy as int, xx as int);
                        }
                        if g[yy][xx] == 9 && visited[yy * w + xx] {
                            score = score + 1;
                        }
                        xx = xx + 1;
                        proof {
                            assert((yy as int) * (w as int) + xx <= (w as int) * (h as int))
                                by (nonlinear_arith)
                                requires
                                    0 <= (yy as int) && (yy as int) < (h as int),
                                    0 <= (xx as int) && (xx as int) <= (w as int),
                            {}
                        }
                    }
                    proof {
                        assert((yy as int + 1) * (w as int) == (yy as int) * (w as int) + (
                        w as int)) by (nonlinear_arith);
                    }
                    yy = yy + 1;
                }
                if total > u64::MAX - score {
                    return None;
                }
                total = total + score;
            }
            x = x + 1;
        }
        y = y + 1;
    }
    Some(total)
}

/// Counts the distinct climbing trails from `(x, y)` up to any peak.
fn count_trails(g: &Vec<Vec<u8>>, w: usize, h: usize, x: usize, y: usize) -> (r: Option<i64>)
    requires
        rect(g@, w as int, h as int),
        x < w,
        y < h,
    ensures
        r matches Some(v) ==> v >= 0,
    decreases 255 - g@[y as int]@[x as int],
{
    let v = g[y][x];
    if v == 9 {
        return Some(1);
    }
    let next = v + 1;
    let mut total: i64 = 0;
    if x > 0 {
        if g[y][x - 1] == next {
            let c = match count_trails(g, w, h, x - 1, y) {
                Some(c) => c,
                None => {
                    return None;
                },
            };
            if total > i64::MAX - c {
                return None;
            }
            total = total + c;
        }
    }
    if x + 1 < w {
        if g[y][x + 1] == next {
            let c = match count_trails(g, w, h, x + 1, y) {
                Some(c) => c,
                None => {
                    return None;
                },
            };
            if total > i64::MAX - c {
                return None;
            }
            total = total + c;
        }
    }
    if y > 0 {
        if g[y - 1][x] == next {
            let c = match count_trails(g, w, h, x, y - 1) {
                Some(c) => c,
                None => {
                    return None;
                },
            };
            if total > i64::MAX - c {
                return None;
            }
            total = total + c;
        }
    }
    if y + 1 < h {
        if g[y + 1][x] == next {
            let c = match count_trails(g, w, h, x, y + 1) {
                Some(c) => c,
                None => {
                    return None;
                },
            };
            if total > i64::MAX - c {
                return None;
            }
            total = total + c;
        }
    }
    Some(total)
}

/// Sums, over the trailheads, the number of distinct trails to any peak.
pub fn part2(input: &str) -> (r: Option<i64>)
    ensures
        r matches Some(v) ==> v >= 0,
{
    let (g, w, h) = match create_map(input) {
        Some(p) => p,
        None => {
            return None;
        },
    };
    let mut total: i64 = 0;
    let mut y: usize = 0;
    while y < h
        invariant
            rect(g@, w as int, h as int),
            0 <= y <= h,
            total >= 0,
        decreases h - y,
    {
        let mut x: usize = 0;
        while x < w
            invariant
                rect(g@, w as int, h as int),
                0 <= y < h,
                0 <= x <= w,
                total >= 0,
            decreases w - x,
        {
            if g[y][x] == 0 {
                let c = match count_trails(&g, w, h, x, y) {
                    Some(c) => c,
                    None => {
                        return None;
                    },
                };
                if total > i64::MAX - c {
                    return None;
                }
                total = total + c;
            }
            x = x + 1;
        }
        y = y + 1;
    }
    Some(total)
}

} // verus!
