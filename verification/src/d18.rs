//! Falling bytes corrupt a square memory grid: part one is the shortest walk
//! from one corner to the other after a prefix of bytes has fallen; part two
//! is the first byte that cuts the corners off from each other.

use vstd::prelude::*;

use std::collections::VecDeque;

use crate::reach::{count_true, lemma_count_true_empty, lemma_count_true_le_len,
    lemma_count_true_update};
use crate::util::{bytes_view, dec_val, find_byte, all_digits, lemma_find_byte, lemma_find_byte_is,
    lines_of, parse_u64, split_lines};
use vstd::string::StringSliceAdditionalSpecFns;

verus! {

/// A coordinate line `x,y` with both numbers in range for a `w` by `h` grid.
pub open spec fn coord_of_line(l: Seq<u8>, w: int, h: int) -> Option<(int, int)> {
    let i = find_byte(l, 44);
    if !(0 < i < l.len()) {
        None
    } else {
        let xs = l.subrange(0, i);
        let ys = l.subrange(i + 1, l.len() as int);
        if !(all_digits(xs) && xs.len() > 0 && all_digits(ys) && ys.len() > 0) {
            None
        } else if !(dec_val(xs) < w && dec_val(ys) < h) {
            None
        } else {
            Some((dec_val(xs), dec_val(ys)))
        }
    }
}

/// Step between orthogonally adjacent cells, onto an open cell.
pub open spec fn edge_g(blocked: Seq<bool>, w: int, h: int, u: int, v: int) -> bool {
    let ux = u % w;
    let uy = u / w;
    let vx = v % w;
    let vy = v / w;
    &&& 0 <= u < w * h
    &&& 0 <= v < w * h
    &&& !blocked[v]
    &&& ((ux == vx && (uy == vy + 1 || uy + 1 == vy)) || (uy == vy && (ux == vx + 1 || ux + 1
        == vx)))
}

/// A walk from `from` to `to` over open cells (the start may be anything).
pub open spec fn is_gpath(blocked: Seq<bool>, w: int, h: int, p: Seq<usize>, from: int, to: int) -> bool {
    &&& p.len() >= 1
    &&& p[0] == from
    &&& p.last() == to
    &&& forall|k: int|
        0 <= k < p.len() - 1 ==> edge_g(blocked, w, h, (#[trigger] p[k]) as int, p[k + 1] as int)
}

pub open spec fn greach(blocked: Seq<bool>, w: int, h: int, from: int, to: int) -> bool {
    exists|p: Seq<usize>| is_gpath(blocked, w, h, p, from, to)
}

/// Some walk of exactly `d` steps ends at `v`.
pub open spec fn walk_to(blocked: Seq<bool>, w: int, h: int, v: int, d: int) -> bool {
    exists|p: Seq<usize>| is_gpath(blocked, w, h, p, 0, v) && p.len() == d + 1
}

/// An edge out of `u` goes to one of its four neighbour indices.
proof fn lemma_edge_cases(blocked: Seq<bool>, w: int, h: int, u: int, v: int)
    requires
        w >= 1,
        h >= 1,
        edge_g(blocked, w, h, u, v),
    ensures
        (v == u - 1 && u % w > 0) || (v == u + 1 && u % w + 1 < w) || (v == u - w && u / w > 0) || (
        v == u + w && u / w + 1 < h),
{
    lemma_cell_coords(w, h, u);
    lemma_cell_coords(w, h, v);
    let ux = u % w;
    let uy = u / w;
    let vx = v % w;
    let vy = v / w;
    if ux == vx && uy == vy + 1 {
        assert(u == v + w) by (nonlinear_arith)
            requires
                u == uy * w + ux,
                v == vy * w + vx,
                ux == vx,
                uy == vy + 1,
        {}
    } else if ux == vx && uy + 1 == vy {
        assert(v == u + w) by (nonlinear_arith)
            requires
                u == uy * w + ux,
                v == vy * w + vx,
                ux == vx,
                uy + 1 == vy,
        {}
    } else if uy == vy && ux == vx + 1 {
        assert(v == u - 1) by (nonlinear_arith)
            requires
                u == uy * w + ux,
                v == vy * w + vx,
                uy == vy,
                ux == vx + 1,
        {}
    } else {
        assert(v == u + 1) by (nonlinear_arith)
            requires
                u == uy * w + ux,
                v == vy * w + vx,
                uy == vy,
                ux + 1 == vx,
        {}
        assert(u % w + 1 < w);
    }
}

/// Walks stay inside the grid once they step.
proof fn lemma_gpath_closed(
    blocked: Seq<bool>,
    w: int,
    h: int,
    visited: Seq<bool>,
    p: Seq<usize>,
    k: int,
)
    requires
        visited.len() == w * h,
        blocked.len() == w * h,
        forall|u: usize, v: usize|
            u < w * h && v < w * h && visited[u as int] && #[trigger] edge_g(
                blocked,
                w,
                h,
                u as int,
                v as int,
            ) ==> visited[v as int],
        p.len() >= 1,
        0 <= p[0] < w * h && visited[p[0] as int],
        forall|j: int|
            0 <= j < p.len() - 1 ==> edge_g(blocked, w, h, (#[trigger] p[j]) as int, p[j + 1] as int),
        0 <= k < p.len(),
    ensures
        p[k] < w * h,
        visited[p[k] as int],
    decreases k,
{
    if k > 0 {
        lemma_gpath_closed(blocked, w, h, visited, p, k - 1);
        assert(edge_g(blocked, w, h, p[k - 1] as int, p[k] as int));
    }
}

/// Breadth-first walk cost from the top-left to the bottom-right corner.
///
/// `Some(c)` gives the length in steps of a real walk; `None` means the far
/// corner cannot be reached at all.
pub fn bfs_cost(blocked: &Vec<bool>, w: usize, h: usize) -> (r: Option<u64>)
    requires
        w >= 1,
        h >= 1,
        w * h <= usize::MAX,
        blocked@.len() == w * h,
    ensures
        match r {
            Some(c) => exists|p: Seq<usize>|
                is_gpath(blocked@, w as int, h as int, p, 0, w * h - 1) && p.len() == c + 1,
            None => !greach(blocked@, w as int, h as int, 0, w * h - 1),
        },
{
    proof {
        assert(w * h >= 1) by (nonlinear_arith)
            requires
                w as int >= 1,
                h as int >= 1,
        {}
    }
    let n: usize = w * h;
    let target: usize = n - 1;
    let mut visited: Vec<bool> = Vec::new();
    let mut dist: Vec<u64> = Vec::new();
    let mut t: usize = 0;
    while t < n
        invariant
            0 <= t <= n,
            visited@.len() == t,
            dist@.len() == t,
            forall|u: int| 0 <= u < t ==> !(#[trigger] visited@[u]),
            forall|u: int| 0 <= u < t ==> (#[trigger] dist@[u]) == 0,
        decreases n - t,
    {
        visited.push(false);
        dist.push(0);
        t = t + 1;
    }
    proof {
        lemma_count_true_empty(visited@);
        lemma_count_true_update(visited@, 0);
    }
    visited.set(0, true);
    let mut queue: VecDeque<usize> = VecDeque::new();
    queue.push_back(0);
    let mut visited_cnt: usize = 1;
    proof {
        lemma_count_true_le_len(visited@);
        assert(queue@[0] == 0usize);
        let p0: Seq<usize> = seq![0usize];
        assert(is_gpath(blocked@, w as int, h as int, p0, 0, 0) && p0.len() == dist@[0] + 1);
        assert(walk_to(blocked@, w as int, h as int, 0, dist@[0] as int));
    }
    while queue.len() > 0
        invariant
            w >= 1,
            h >= 1,
            n == w * h,
            n <= usize::MAX,
            target == n - 1,
            blocked@.len() == n,
            visited@.len() == n,
            dist@.len() == n,
            1 <= visited_cnt <= n,
            visited_cnt as int == count_true(visited@),
            visited@[0],
            dist@[0] == 0,
            forall|j: int|
                0 <= j < queue@.len() ==> (#[trigger] queue@[j]) < n && visited@[queue@[j] as int],
            forall|u: usize, v: usize|
                u < n && v < n && visited@[u as int] && !queue@.contains(u) && #[trigger] edge_g(
                    blocked@,
                    w as int,
                    h as int,
                    u as int,
                    v as int,
                ) ==> visited@[v as int],
            // every visited cell is the end of a real walk of its distance
            forall|v: int|
                0 <= v < n && visited@[v] ==> #[trigger] walk_to(
                    blocked@,
                    w as int,
                    h as int,
                    v,
                    dist@[v] as int,
                ),
            forall|v: int| 0 <= v < n && visited@[v] ==> (#[trigger] dist@[v]) < visited_cnt,
            visited@[target as int] ==> queue@.contains(target),
        decreases n - visited_cnt + queue@.len(),
    {
        let ghost queue0 = queue@;
        let u = queue.pop_front().unwrap();
        proof {
            assert(queue@ =~= queue0.skip(1));
            assert(queue0[0] == u);
            if u != target && visited@[target as int] {
                let j = choose|j: int| 0 <= j < queue0.len() && queue0[j] == target;
                assert(j != 0);
                assert(queue@[j - 1] == target);
                assert(queue@.contains(target));
            }
        }
        if u == target {
            proof {
                assert(walk_to(blocked@, w as int, h as int, u as int, dist@[u as int] as int));
                let p = choose|p: Seq<usize>|
                    is_gpath(blocked@, w as int, h as int, p, 0, u as int) && p.len() == dist@[
                    u as int] as int + 1;
                assert(is_gpath(blocked@, w as int, h as int, p, 0, w * h - 1));
            }
            return Some(dist[u]);
        }
        proof {
            assert forall|uu: usize, v: usize|
                uu < n && v < n && visited@[uu as int] && !queue@.contains(uu) && uu != u
                    && #[trigger] edge_g(blocked@, w as int, h as int, uu as int, v as int)
                implies visited@[v as int] by {
                if queue0.contains(uu) {
                    let j = choose|j: int| 0 <= j < queue0.len() && queue0[j] == uu;
                    assert(j != 0);
                    assert(queue@[j - 1] == uu);
                    assert(queue@.contains(uu));
                }
            }
        }
        let ghost m0 = n - visited_cnt + queue@.len();
        // the four neighbours
        let ux = u % w;
        let uy = u / w;
        let mut step: usize = 0;
        while step < 4
            invariant
                w >= 1,
                h >= 1,
                n == w * h,
                n <= usize::MAX,
                target == n - 1,
                u < n,
                u != target,
                ux == u % w,
                uy == u / w,
                blocked@.len() == n,
                visited@.len() == n,
                dist@.len() == n,
                1 <= visited_cnt <= n,
                visited_cnt as int == count_true(visited@),
                visited@[0],
                dist@[0] == 0,
                visited@[u as int],
                0 <= step <= 4,
                n - visited_cnt + queue@.len() == m0,
                forall|j: int|
                    0 <= j < queue@.len() ==> (#[trigger] queue@[j]) < n
                        && visited@[queue@[j] as int],
                forall|uu: usize, v: usize|
                    uu < n && v < n && visited@[uu as int] && !queue@.contains(uu) && uu != u
                        && #[trigger] edge_g(blocked@, w as int, h as int, uu as int, v as int)
                        ==> visited@[v as int],
                // `u`'s already-scanned neighbours are visited
                forall|v: usize|
                    v < n && #[trigger] edge_g(blocked@, w as int, h as int, u as int, v as int)
                        && nb_scanned(w as int, h as int, u as int, v as int, step as int)
                        ==> visited@[v as int],
                forall|v: int|
                    0 <= v < n && visited@[v] ==> #[trigger] walk_to(
                        blocked@,
                        w as int,
                        h as int,
                        v,
                        dist@[v] as int,
                    ),
                forall|v: int| 0 <= v < n && visited@[v] ==> (#[trigger] dist@[v]) < visited_cnt,
                visited@[target as int] ==> queue@.contains(target),
            decreases 4 - step,
        {
            // neighbour of this step, if inside the grid
            proof {
                lemma_cell_coords(w as int, h as int, u as int);
            }
            let cand: Option<usize> = if step == 0 {
                if ux > 0 {
                    proof {
                        assert(0int % (w as int) == 0) by (nonlinear_arith)
                            requires
                                w as int >= 1,
                        {}
                    }
                    Some(u - 1)
                } else {
                    None
                }
            } else if step == 1 {
                if ux + 1 < w {
                    Some(u + 1)
                } else {
                    None
                }
            } else if step == 2 {
                if uy > 0 {
                    proof {
                        assert((u as int) >= (w as int)) by (nonlinear_arith)
                            requires
                                u as int == ((u as int) / (w as int)) * (w as int) + (u as int) % (
                                w as int),
                                (u as int) / (w as int) >= 1,
                                (u as int) % (w as int) >= 0,
                                w as int >= 1,
                        {}
                    }
                    Some(u - w)
                } else {
                    None
                }
            } else {
                if uy + 1 < h {
                    proof {
                        assert((u as int) + (w as int) < (w as int) * (h as int)) by (nonlinear_arith)
                            requires
                                u as int == ((u as int) / (w as int)) * (w as int) + (u as int) % (
                                w as int),
                                (u as int) / (w as int) + 1 < h as int,
                                0 <= (u as int) % (w as int) < (w as int),
                                w as int >= 1,
                        {}
                    }
                    Some(u + w)
                } else {
                    None
                }
            };
            match cand {
                Some(v) => {
                    proof {
                        lemma_cell_coords(w as int, h as int, v as int);
                        lemma_neighbor(w as int, h as int, u as int, v as int, step as int);
                    }
                    if !blocked[v] {
                        if !visited[v] {
                            let ghost visited0 = visited@;
                            let ghost queue1 = queue@;
                            proof {
                                lemma_count_true_update(visited0, v as int);
                                lemma_count_true_le_len(visited0.update(v as int, true));
                            }
                            visited.set(v, true);
                            let du = dist[u];
                            proof {
                                assert(walk_to(blocked@, w as int, h as int, u as int, dist@[u as int] as int));
                                let p0 = choose|p: Seq<usize>|
                                    is_gpath(blocked@, w as int, h as int, p, 0, u as int)
                                        && p.len() == dist@[u as int] + 1;
                                let p1 = p0.push(v);
                                assert(p1.last() == v);
                                assert(p1[0] == p0[0]);
                                assert forall|k: int| 0 <= k < p1.len() - 1 implies edge_g(
                                    blocked@,
                                    w as int,
                                    h as int,
                                    (#[trigger] p1[k]) as int,
                                    p1[k + 1] as int,
                                ) by {
                                    if k < p0.len() - 1 {
                                        assert(p1[k] == p0[k]);
                                        assert(p1[k + 1] == p0[k + 1]);
                                    } else {
                                        assert(p1[k] == p0.last());
                                        assert(p1[k + 1] == v);
                                        assert(edge_g(
                                            blocked@,
                                            w as int,
                                            h as int,
                                            u as int,
                                            v as int,
                                        ));
                                    }
                                }
                                assert(is_gpath(blocked@, w as int, h as int, p1, 0, v as int)
                                    && p1.len() == dist@[u as int] + 2);
                                assert(walk_to(
                                    blocked@,
                                    w as int,
                                    h as int,
                                    v as int,
                                    dist@[u as int] + 1,
                                ));
                            }
                            dist.set(v, du + 1);
                            queue.push_back(v);
                            visited_cnt = visited_cnt + 1;
                            proof {
                                assert(queue@ =~= queue1.push(v));
                                assert(queue@[queue@.len() - 1] == v);
                                assert(queue@.contains(v));
                                assert forall|j: int| 0 <= j < queue1.len() implies #[trigger] queue@[j]
                                    == queue1[j] by {}
                                assert forall|uu: usize, vv: usize|
                                    uu < n && vv < n && visited@[uu as int] && !queue@.contains(uu)
                                        && uu != u && #[trigger] edge_g(
                                        blocked@,
                                        w as int,
                                        h as int,
                                        uu as int,
                                        vv as int,
                                    ) implies visited@[vv as int] by {
                                    if uu == v {
                                        assert(queue@.contains(v));
                                    } else {
                                        if queue1.contains(uu) {
                                            let j = choose|j: int|
                                                0 <= j < queue1.len() && queue1[j] == uu;
                                            assert(queue@[j] == uu);
                                        }
                                    }
                                }
                                assert forall|vv: int|
                                    0 <= vv < n && visited@[vv] implies #[trigger] walk_to(
                                    blocked@,
                                    w as int,
                                    h as int,
                                    vv,
                                    dist@[vv] as int,
                                ) by {
                                    if vv != v as int {
                                        assert(visited0[vv]);
                                    }
                                }
                                if visited@[target as int] {
                                    if v == target {
                                        assert(queue@.contains(target));
                                    } else {
                                        assert(visited0[target as int]);
                                        let j = choose|j: int|
                                            0 <= j < queue1.len() && queue1[j] == target;
                                        assert(queue@[j] == target);
                                    }
                                }
                            }
                        }
                    }
                },
                None => {},
            }
            proof {
                assert forall|v: usize|
                    v < n && #[trigger] edge_g(blocked@, w as int, h as int, u as int, v as int)
                        && nb_scanned(w as int, h as int, u as int, v as int, step + 1)
                        implies visited@[v as int] by {
                    lemma_cell_coords(w as int, h as int, v as int);
                    lemma_edge_cases(blocked@, w as int, h as int, u as int, v as int);
                }
            }
            step = step + 1;
        }
        proof {
            assert forall|uu: usize, v: usize|
                uu < n && v < n && visited@[uu as int] && !queue@.contains(uu) && #[trigger] edge_g(
                    blocked@,
                    w as int,
                    h as int,
                    uu as int,
                    v as int,
                ) implies visited@[v as int] by {
                if uu == u {
                    lemma_edge_cases(blocked@, w as int, h as int, uu as int, v as int);
                    assert(nb_scanned(w as int, h as int, uu as int, v as int, 4));
                }
            }
        }
    }
    proof {
        assert(!visited@[target as int]);
        if greach(blocked@, w as int, h as int, 0, n - 1) {
            let p = choose|p: Seq<usize>| #[trigger] is_gpath(blocked@, w as int, h as int, p, 0, n - 1);
            lemma_gpath_closed(blocked@, w as int, h as int, visited@, p, p.len() - 1);
        }
    }
    None
}

/// The neighbours covered by the first `step` scan rounds: left, right, up,
/// down in that order.
pub open spec fn nb_scanned(w: int, h: int, u: int, v: int, step: int) -> bool {
    ||| (step >= 1 && v == u - 1 && u % w > 0)
    ||| (step >= 2 && v == u + 1 && u % w + 1 < w)
    ||| (step >= 3 && v == u - w)
    ||| (step >= 4 && v == u + w)
}

/// Row/column decomposition of a cell index.
pub proof fn lemma_cell_coords(w: int, h: int, u: int)
    requires
        w >= 1,
        h >= 1,
        0 <= u < w * h,
    ensures
        0 <= u % w < w,
        0 <= u / w < h,
        u == (u / w) * w + u % w,
    decreases h,
{
    assert(0 <= u % w < w && u == w * (u / w) + u % w) by (nonlinear_arith)
        requires
            w >= 1,
    {}
    assert(0 <= u / w < h) by (nonlinear_arith)
        requires
            w >= 1,
            h >= 1,
            0 <= u < w * h,
            u == w * (u / w) + u % w,
            0 <= u % w < w,
    {}
}

/// The step candidates really are grid edges when open and in range.
proof fn lemma_neighbor(w: int, h: int, u: int, v: int, step: int)
    requires
        w >= 1,
        h >= 1,
        0 <= u < w * h,
        0 <= step < 4,
        step == 0 ==> u % w > 0 && v == u - 1,
        step == 1 ==> u % w + 1 < w && v == u + 1,
        step == 2 ==> u / w > 0 && v == u - w,
        step == 3 ==> u / w + 1 < h && v == u + w,
    ensures
        0 <= v < w * h,
        v % w == if step == 0 {
            u % w - 1
        } else if step == 1 {
            u % w + 1
        } else {
            u % w
        },
        v / w == if step == 2 {
            u / w - 1
        } else if step == 3 {
            u / w + 1
        } else {
            u / w
        },
{
    lemma_cell_coords(w, h, u);
    if step == 0 {
        assert(v == (u / w) * w + (u % w - 1));
        lemma_rowcol(w, h, u / w, u % w - 1);
    } else if step == 1 {
        assert(v == (u / w) * w + (u % w + 1));
        lemma_rowcol(w, h, u / w, u % w + 1);
    } else if step == 2 {
        assert(v == (u / w - 1) * w + u % w) by (nonlinear_arith)
            requires
                u == (u / w) * w + u % w,
                v == u - w,
        {}
        lemma_rowcol(w, h, u / w - 1, u % w);
    } else {
        assert(v == (u / w + 1) * w + u % w) by (nonlinear_arith)
            requires
                u == (u / w) * w + u % w,
                v == u + w,
        {}
        assert(u / w + 1 < h);
        lemma_rowcol(w, h, u / w + 1, u % w);
    }
}

/// Index arithmetic: `(y, x)` maps to `y * w + x` and back.
pub proof fn lemma_rowcol(w: int, h: int, y: int, x: int)
    requires
        w >= 1,
        h >= 1,
        0 <= y < h,
        0 <= x < w,
    ensures
        0 <= y * w + x < w * h,
        (y * w + x) % w == x,
        (y * w + x) / w == y,
{
    assert(0 <= y * w + x < w * h && (y * w + x) % w == x && (y * w + x) / w == y)
        by (nonlinear_arith)
        requires
            w >= 1,
            h >= 1,
            0 <= y < h,
            0 <= x < w,
    {}
}

/// The parsed coordinates of the first `k` lines; `None` when a line is
/// malformed or a number too large for an index.
pub open spec fn coords_upto(ls: Seq<Seq<u8>>, k: int) -> Option<Seq<(int, int)>>
    decreases k,
{
    if k <= 0 {
        Some(Seq::empty())
    } else {
        match coords_upto(ls, k - 1) {
            None => None,
            Some(cs) => {
                if k - 1 >= ls.len() {
                    Some(cs)
                } else {
                    match coord_line(ls[k - 1]) {
                        None => None,
                        Some(c) => Some(cs.push(c)),
                    }
                }
            },
        }
    }
}

/// One coordinate line `x,y`.
pub open spec fn coord_line(l: Seq<u8>) -> Option<(int, int)> {
    let i = find_byte(l, 44);
    if !(0 < i < l.len()) {
        None
    } else {
        let xs = l.subrange(0, i);
        let ys = l.subrange(i + 1, l.len() as int);
        if !(all_digits(xs) && xs.len() > 0 && all_digits(ys) && ys.len() > 0) {
            None
        } else if !(dec_val(xs) <= usize::MAX && dec_val(ys) <= usize::MAX) {
            None
        } else {
            Some((dec_val(xs), dec_val(ys)))
        }
    }
}

/// Parses one coordinate line.
pub fn parse_coord(l: &[u8]) -> (r: Option<(usize, usize)>)
    ensures
        match r {
            Some(c) => coord_line(l@) == Some((c.0 as int, c.1 as int)),
            None => coord_line(l@) is None,
        },
{
    proof {
        lemma_find_byte(l@, 44);
    }
    let mut i: usize = 0;
    while i < l.len() && l[i] != 44
        invariant
            0 <= i <= l@.len(),
            forall|k: int| 0 <= k < i ==> l@[k] != 44,
        decreases l@.len() - i,
    {
        i = i + 1;
    }
    proof {
        lemma_find_byte_is(l@, 44, i as int);
    }
    if i == 0 || i >= l.len() {
        return None;
    }
    let xs = vstd::slice::slice_subrange(l, 0, i);
    let ys = vstd::slice::slice_subrange(l, i + 1, l.len());
    let x = match parse_u64(xs) {
        Some(x) => x,
        None => {
            proof {
                if all_digits(xs@) && xs@.len() > 0 {
                    crate::util::lemma_dec_val_bounds(xs@);
                }
            }
            return None;
        },
    };
    let y = match parse_u64(ys) {
        Some(y) => y,
        None => {
            proof {
                if all_digits(ys@) && ys@.len() > 0 {
                    crate::util::lemma_dec_val_bounds(ys@);
                }
            }
            return None;
        },
    };
    if x > usize::MAX as u64 || y > usize::MAX as u64 {
        return None;
    }
    Some((x as usize, y as usize))
}

/// The grid after the first `bytes` coordinates have fallen; `None` when a
/// needed line is malformed or a coordinate is off the grid.
pub open spec fn grid_spec(s: Seq<u8>, w: int, h: int, bytes: int) -> Option<Seq<bool>> {
    let ls = lines_of(s);
    let k = if bytes <= ls.len() {
        bytes
    } else {
        ls.len() as int
    };
    match coords_upto(ls, k) {
        None => None,
        Some(cs) => apply_coords(Seq::new((w * h) as nat, |i: int| false), cs, cs.len() as int, w, h),
    }
}

/// Blocks the first `k` coordinates on the grid; `None` when one is off it.
pub open spec fn apply_coords(g: Seq<bool>, cs: Seq<(int, int)>, k: int, w: int, h: int) -> Option<
    Seq<bool>,
>
    decreases k,
{
    if k <= 0 {
        Some(g)
    } else {
        match apply_coords(g, cs, k - 1, w, h) {
            None => None,
            Some(g2) => {
                let (x, y) = cs[k - 1];
                if !(0 <= x < w && 0 <= y < h) {
                    None
                } else {
                    Some(g2.update(y * w + x, true))
                }
            },
        }
    }
}

/// Builds the grid with the first `bytes` fallen coordinates blocked.
pub fn make_grid(input: &str, w: usize, h: usize, bytes: usize) -> (r: Option<Vec<bool>>)
    requires
        w >= 1,
        h >= 1,
        w * h <= usize::MAX,
    ensures
        match r {
            Some(g) => grid_spec(input.spec_bytes(), w as int, h as int, bytes as int) == Some(g@)
                && g@.len() == w * h,
            None => grid_spec(input.spec_bytes(), w as int, h as int, bytes as int) is None,
        },
{
    let s = input.as_bytes();
    let ls = split_lines(s);
    let ghost lsv = lines_of(input.spec_bytes());
    let n: usize = w * h;
    let mut g: Vec<bool> = Vec::new();
    let mut t: usize = 0;
    while t < n
        invariant
            0 <= t <= n,
            g@.len() == t,
            forall|u: int| 0 <= u < t ==> !(#[trigger] g@[u]),
        decreases n - t,
    {
        g.push(false);
        t = t + 1;
    }
    proof {
        assert(g@ =~= Seq::new((w * h) as nat, |i: int| false));
    }
    let limit = if bytes <= ls.len() {
        bytes
    } else {
        ls.len()
    };
    let ghost g0 = g@;
    let mut k: usize = 0;
    while k < limit
        invariant
            bytes_view(ls@) == lsv,
            lsv == lines_of(input.spec_bytes()),
            w >= 1,
            h >= 1,
            n == w * h,
            g@.len() == n,
            g0 == Seq::new((w * h) as nat, |i: int| false),
            limit == if bytes as int <= lsv.len() {
                bytes as int
            } else {
                lsv.len() as int
            },
            0 <= k <= limit,
            limit <= lsv.len(),
            coords_upto(lsv, k as int) matches Some(cs) && apply_coords(
                g0,
                cs,
                cs.len() as int,
                w as int,
                h as int,
            ) == Some(g@) && cs.len() == k,
        decreases limit - k,
    {
        proof {
            assert(lsv[k as int] == ls@[k as int]@);
        }
        let (x, y) = match parse_coord(ls[k].as_slice()) {
            Some(c) => c,
            None => {
                proof {
                    assert(coords_upto(lsv, k + 1) is None);
                    lemma_coords_upto_none(lsv, k + 1, limit as int);
                }
                return None;
            },
        };
        if x >= w || y >= h {
            proof {
                let cs1 = coords_upto(lsv, k + 1)->Some_0;
                assert(cs1.last() == (x as int, y as int));
                assert(apply_coords(g0, cs1, cs1.len() as int, w as int, h as int) is None) by {
                    lemma_apply_prefix(g0, cs1, w as int, h as int);
                }
                lemma_grid_none(lsv, g0, k + 1, limit as int, w as int, h as int);
            }
            return None;
        }
        proof {
            lemma_rowcol(w as int, h as int, y as int, x as int);
            let cs0 = coords_upto(lsv, k as int)->Some_0;
            let cs1 = coords_upto(lsv, k + 1)->Some_0;
            assert(cs1 == cs0.push((x as int, y as int)));
            assert(forall|j: int| 0 <= j < cs0.len() ==> cs1[j] == cs0[j]);
            lemma_apply_snoc(g0, cs0, (x as int, y as int), w as int, h as int);
        }
        g.set(y * w + x, true);
        k = k + 1;
    }
    proof {
        lemma_coords_upto_stable(lsv, limit as int, if bytes as int <= lsv.len() {
            bytes as int
        } else {
            lsv.len() as int
        });
    }
    Some(g)
}

/// `coords_upto` ignores indices past the line count.
proof fn lemma_coords_upto_stable(ls: Seq<Seq<u8>>, a: int, b: int)
    requires
        ls.len() <= a <= b || a == b,
    ensures
        coords_upto(ls, a) == coords_upto(ls, b),
    decreases b - a,
{
    if a < b {
        lemma_coords_upto_stable(ls, a, b - 1);
    }
}

/// A failure at prefix `a` propagates to any longer prefix.
proof fn lemma_coords_upto_none(ls: Seq<Seq<u8>>, a: int, b: int)
    requires
        0 <= a <= b,
        coords_upto(ls, a) is None,
    ensures
        coords_upto(ls, b) is None,
    decreases b - a,
{
    if a < b {
        lemma_coords_upto_none(ls, a + 1, b);
    }
}

/// Applying a longer coordinate list extends the shorter application.
proof fn lemma_apply_snoc(g: Seq<bool>, cs: Seq<(int, int)>, c: (int, int), w: int, h: int)
    ensures
        ({
            let cs1 = cs.push(c);
            apply_coords(g, cs1, cs1.len() as int, w, h) == (match apply_coords(
                g,
                cs,
                cs.len() as int,
                w,
                h,
            ) {
                None => None::<Seq<bool>>,
                Some(g2) => if !(0 <= c.0 < w && 0 <= c.1 < h) {
                    None
                } else {
                    Some(g2.update(c.1 * w + c.0, true))
                },
            })
        }),
{
    let cs1 = cs.push(c);
    lemma_apply_prefix_eq(g, cs, cs1, cs.len() as int, w, h);
}

/// Application only looks at the first `k` entries.
proof fn lemma_apply_prefix_eq(
    g: Seq<bool>,
    cs: Seq<(int, int)>,
    cs2: Seq<(int, int)>,
    k: int,
    w: int,
    h: int,
)
    requires
        k <= cs.len(),
        k <= cs2.len(),
        forall|j: int| 0 <= j < k ==> cs[j] == cs2[j],
    ensures
        apply_coords(g, cs, k, w, h) == apply_coords(g, cs2, k, w, h),
    decreases k,
{
    if k > 0 {
        lemma_apply_prefix_eq(g, cs, cs2, k - 1, w, h);
    }
}

/// A failed application stays failed as more coordinates land.
proof fn lemma_apply_prefix(g: Seq<bool>, cs: Seq<(int, int)>, w: int, h: int)
    ensures
        forall|a: int, b: int|
            0 <= a <= b <= cs.len() && #[trigger] apply_coords(g, cs, a, w, h) is None
                ==> #[trigger] apply_coords(g, cs, b, w, h) is None,
{
    assert forall|a: int, b: int|
        0 <= a <= b <= cs.len() && #[trigger] apply_coords(g, cs, a, w, h) is None
            implies #[trigger] apply_coords(g, cs, b, w, h) is None by {
        lemma_apply_none(g, cs, a, b, w, h);
    }
}

proof fn lemma_apply_none(g: Seq<bool>, cs: Seq<(int, int)>, a: int, b: int, w: int, h: int)
    requires
        0 <= a <= b,
        apply_coords(g, cs, a, w, h) is None,
    ensures
        apply_coords(g, cs, b, w, h) is None,
    decreases b - a,
{
    if a < b {
        lemma_apply_none(g, cs, a + 1, b, w, h);
    }
}

/// A grid that fails to build at `k` bytes fails at any larger count too.
proof fn lemma_grid_none(
    ls: Seq<Seq<u8>>,
    g0: Seq<bool>,
    k: int,
    limit: int,
    w: int,
    h: int,
)
    requires
        0 <= k <= limit <= ls.len(),
        g0 == Seq::new((w * h) as nat, |i: int| false),
        match coords_upto(ls, k) {
            None => true,
            Some(cs) => apply_coords(g0, cs, cs.len() as int, w, h) is None,
        },
    ensures
        match coords_upto(ls, limit) {
            None => true,
            Some(cs) => apply_coords(g0, cs, cs.len() as int, w, h) is None,
        },
    decreases limit - k,
{
    if k < limit {
        match coords_upto(ls, k) {
            None => {
                lemma_coords_upto_none(ls, k, k + 1);
            },
            Some(cs) => {
                match coords_upto(ls, k + 1) {
                    None => {},
                    Some(cs1) => {
                        assert(cs1.len() == cs.len() + 1 && forall|j: int|
                            0 <= j < cs.len() ==> cs1[j] == cs[j]);
                        lemma_apply_prefix_eq(g0, cs, cs1, cs.len() as int, w, h);
                        lemma_apply_none(g0, cs1, cs.len() as int, cs1.len() as int, w, h);
                    },
                }
            },
        }
        lemma_grid_none(ls, g0, k + 1, limit, w, h);
    }
}

/// The walk cost on a built grid (the `find_path_cost` of the puzzle).
pub fn find_path_cost(grid: &Vec<bool>, w: usize, h: usize) -> (r: Option<u64>)
    requires
        w >= 1,
        h >= 1,
        w * h <= usize::MAX,
        grid@.len() == w * h,
    ensures
        match r {
            Some(c) => exists|p: Seq<usize>|
                is_gpath(grid@, w as int, h as int, p, 0, w * h - 1) && p.len() == c + 1,
            None => !greach(grid@, w as int, h as int, 0, w * h - 1),
        },
{
    bfs_cost(grid, w, h)
}

/// Builds the grid from the first `bytes` coordinates and walks it.
///
/// `Some(c)` gives the step count of a real corner-to-corner walk (the
/// breadth-first search makes it shortest); `None` means a needed coordinate
/// line is unusable or no walk exists.
pub fn solve_part1(input: &str, w: usize, h: usize, bytes: usize) -> (r: Option<u64>)
    ensures
        r matches Some(c) ==> w >= 1 && h >= 1 && (grid_spec(
            input.spec_bytes(),
            w as int,
            h as int,
            bytes as int,
        ) matches Some(g) && exists|p: Seq<usize>|
            is_gpath(g, w as int, h as int, p, 0, w * h - 1) && p.len() == c + 1),
        r is None ==> w == 0 || h == 0 || w * h > usize::MAX || (match grid_spec(
            input.spec_bytes(),
            w as int,
            h as int,
            bytes as int,
        ) {
            None => true,
            Some(g) => !greach(g, w as int, h as int, 0, w * h - 1),
        }),
{
    if w == 0 || h == 0 {
        return None;
    }
    if h > usize::MAX / w {
        proof {
            assert((w as int) * (h as int) > usize::MAX) by (nonlinear_arith)
                requires
                    w as int >= 1,
                    h as int > (usize::MAX as int) / (w as int),
            {}
        }
        return None;
    }
    proof {
        assert((w as int) * (h as int) <= usize::MAX) by (nonlinear_arith)
            requires
                w as int >= 1,
                0 <= h as int <= (usize::MAX as int) / (w as int),
        {}
    }
    let g = match make_grid(input, w, h, bytes) {
        Some(g) => g,
        None => {
            return None;
        },
    };
    bfs_cost(&g, w, h)
}

/// The falling-byte scan: at line `k`, build the grid with `k + 1` bytes
/// fallen, read the line's coordinate, and stop at the first prefix that cuts
/// the corners apart.  `None` marks an unusable line, an off-grid coordinate,
/// or a scan that ran out with the corners still connected.
pub open spec fn p2_scan(s: Seq<u8>, w: int, h: int, k: int) -> Option<(int, int)>
    decreases lines_of(s).len() - k,
{
    let ls = lines_of(s);
    if k < 0 || k >= ls.len() {
        None
    } else {
        match grid_spec(s, w, h, k + 1) {
            None => None,
            Some(g) => match coord_line(ls[k]) {
                None => None,
                Some(cc) => if !greach(g, w, h, 0, w * h - 1) {
                    Some(cc)
                } else {
                    p2_scan(s, w, h, k + 1)
                },
            },
        }
    }
}

/// Drops the coordinates one by one until the far corner is cut off, and
/// reports the coordinate that does it.
///
/// `Some((x, y))` is exactly the scan's answer: the first coordinate whose
/// fall disconnects the corners.  `None` means the frame is degenerate, a
/// needed line is unusable, a coordinate is off the grid, or the corners stay
/// connected to the end.
pub fn solve_part2(input: &str, w: usize, h: usize) -> (r: Option<(u64, u64)>)
    ensures
        r matches Some(c) ==> w >= 1 && h >= 1 && exists|k: int|
            {
                &&& 0 <= k < lines_of(input.spec_bytes()).len()
                &&& coord_line(#[trigger] lines_of(input.spec_bytes())[k]) == Some(
                    (c.0 as int, c.1 as int),
                )
                &&& grid_spec(input.spec_bytes(), w as int, h as int, k + 1) matches Some(g)
                    && !greach(g, w as int, h as int, 0, w * h - 1)
            },
        match r {
            Some(c) => w >= 1 && h >= 1 && w * h <= usize::MAX && p2_scan(
                input.spec_bytes(),
                w as int,
                h as int,
                0,
            ) == Some((c.0 as int, c.1 as int)),
            None => w == 0 || h == 0 || w * h > usize::MAX || p2_scan(
                input.spec_bytes(),
                w as int,
                h as int,
                0,
            ) is None,
        },
{
    if w == 0 || h == 0 {
        return None;
    }
    if h > usize::MAX / w {
        proof {
            assert((w as int) * (h as int) > usize::MAX) by (nonlinear_arith)
                requires
                    w as int >= 1,
                    h as int > (usize::MAX as int) / (w as int),
            {}
        }
        return None;
    }
    proof {
        assert((w as int) * (h as int) <= usize::MAX) by (nonlinear_arith)
            requires
                w as int >= 1,
                0 <= h as int <= (usize::MAX as int) / (w as int),
        {}
    }
    let s = input.as_bytes();
    let ls = split_lines(s);
    let mut k: usize = 0;
    while k < ls.len()
        invariant
            w >= 1,
            h >= 1,
            w * h <= usize::MAX,
            bytes_view(ls@) == lines_of(input.spec_bytes()),
            0 <= k <= ls@.len(),
            p2_scan(input.spec_bytes(), w as int, h as int, 0) == p2_scan(
                input.spec_bytes(),
                w as int,
                h as int,
                k as int,
            ),
        decreases ls@.len() - k,
    {
        proof {
            assert(k < lines_of(input.spec_bytes()).len());
        }
        let g = match make_grid(input, w, h, k + 1) {
            Some(g) => g,
            None => {
                proof {
                    assert(p2_scan(input.spec_bytes(), w as int, h as int, k as int) is None);
                }
                return None;
            },
        };
        proof {
            assert(bytes_view(ls@)[k as int] == ls@[k as int]@);
        }
        let (x, y) = match parse_coord(ls[k].as_slice()) {
            Some(c) => c,
            None => {
                proof {
                    assert(p2_scan(input.spec_bytes(), w as int, h as int, k as int) is None);
                }
                return None;
            },
        };
        match bfs_cost(&g, w, h) {
            Some(_) => {
                proof {
                    assert(greach(g@, w as int, h as int, 0, w * h - 1));
                    assert(p2_scan(input.spec_bytes(), w as int, h as int, k as int) == p2_scan(
                        input.spec_bytes(),
                        w as int,
                        h as int,
                        k + 1,
                    ));
                }
            },
            None => {
                proof {
                    assert(0 <= k < lines_of(input.spec_bytes()).len() && coord_line(
                        lines_of(input.spec_bytes())[k as int],
                    ) == Some((x as int, y as int)) && (grid_spec(
                        input.spec_bytes(),
                        w as int,
                        h as int,
                        k + 1,
                    ) matches Some(gg) && !greach(gg, w as int, h as int, 0, w * h - 1)));
                    assert(p2_scan(input.spec_bytes(), w as int, h as int, k as int) == Some(
                        (x as int, y as int),
                    ));
                }
                return Some((x as u64, y as u64));
            },
        }
        k = k + 1;
    }
    None
}

/// The walk cost on the full-size grid after the first kilobyte falls.
pub fn part1(input: &str) -> (r: Option<u64>)
    ensures
        r matches Some(c) ==> grid_spec(input.spec_bytes(), 71, 71, 1024) matches Some(g)
            && exists|p: Seq<usize>| is_gpath(g, 71, 71, p, 0, 71 * 71 - 1) && p.len() == c + 1,
{
    solve_part1(input, 71, 71, 1024)
}

/// The first coordinate that cuts the full-size grid's corners apart.
pub fn part2(input: &str) -> (r: Option<(u64, u64)>)
    ensures
        match r {
            Some(c) => p2_scan(input.spec_bytes(), 71, 71, 0) == Some((c.0 as int, c.1 as int)),
            None => p2_scan(input.spec_bytes(), 71, 71, 0) is None,
        },
{
    solve_part2(input, 71, 71)
}

} // verus!
