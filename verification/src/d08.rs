//! Antennas on a grid, keyed by frequency byte: part one counts the antinode
//! cells (twice one antenna minus another of the same frequency); part two
//! counts every cell on a line through two same-frequency antennas.

use vstd::prelude::*;

use crate::reach::count_true;
use crate::util::{bytes_view, lines_of, split_lines};
use vstd::string::StringSliceAdditionalSpecFns;

verus! {

/// Cell `(x, y)` holds an antenna of frequency `c`.
pub open spec fn antenna(ls: Seq<Seq<u8>>, x: int, y: int, c: u8) -> bool {
    &&& 0 <= y < ls.len()
    &&& 0 <= x < ls[y].len()
    &&& ls[y][x] == c
    &&& c != 46
}

/// The grid width: the length of the last line (0 without lines).
pub open spec fn grid_w(ls: Seq<Seq<u8>>) -> int {
    if ls.len() == 0 {
        0
    } else {
        ls[ls.len() - 1].len() as int
    }
}

/// Cell `(x, y)` is an antinode: in line with two distinct same-frequency
/// antennas, `k` steps past the first (part one fixes `k` at one beyond).
pub open spec fn antinode(ls: Seq<Seq<u8>>, x: int, y: int, kmax: int) -> bool {
    exists|c: u8, x1: int, y1: int, x2: int, y2: int, k: int|
        #![trigger antenna(ls, x1, y1, c), antenna(ls, x2, y2, c), k * (x1 - x2)]
        {
            &&& antenna(ls, x1, y1, c)
            &&& antenna(ls, x2, y2, c)
            &&& (x1, y1) != (x2, y2)
            &&& 1 <= k <= kmax
            &&& x == x1 - k * (x1 - x2) && y == y1 - k * (y1 - y2)
        }
}

/// The part-one antinode cell: exactly one step beyond an antenna pair.
pub open spec fn antinode1(ls: Seq<Seq<u8>>, x: int, y: int) -> bool {
    exists|c: u8, x1: int, y1: int, x2: int, y2: int|
        {
            &&& #[trigger] antenna(ls, x1, y1, c)
            &&& #[trigger] antenna(ls, x2, y2, c)
            &&& (x1, y1) != (x2, y2)
            &&& x == 2 * x1 - x2 && y == 2 * y1 - y2
        }
}

/// The antinode count of the grid: cells in the `w` by `h` frame satisfying
/// the predicate, row-major.
pub open spec fn antinode_mask1(ls: Seq<Seq<u8>>, w: int, h: int) -> Seq<bool> {
    Seq::new((w * h) as nat, |i: int| antinode1(ls, i % w, i / w))
}

pub open spec fn antinode_mask2(ls: Seq<Seq<u8>>, w: int, h: int, kmax: int) -> Seq<bool> {
    Seq::new((w * h) as nat, |i: int| antinode(ls, i % w, i / w, kmax))
}

/// All antennas as a list, in reading order.
fn collect_antennas(ls: &Vec<Vec<u8>>) -> (r: Vec<(u8, usize, usize)>)
    ensures
        forall|j: int|
            0 <= j < r@.len() ==> antenna(
                bytes_view(ls@),
                (#[trigger] r@[j]).1 as int,
                r@[j].2 as int,
                r@[j].0,
            ),
        forall|x: int, y: int, c: u8|
            antenna(bytes_view(ls@), x, y, c) ==> exists|j: int|
                0 <= j < r@.len() && (#[trigger] r@[j]) == (c, x as usize, y as usize),
{
    let ghost lsv = bytes_view(ls@);
    let mut r: Vec<(u8, usize, usize)> = Vec::new();
    let mut y: usize = 0;
    while y < ls.len()
        invariant
            lsv == bytes_view(ls@),
            0 <= y <= ls@.len(),
            forall|j: int|
                0 <= j < r@.len() ==> antenna(
                    lsv,
                    (#[trigger] r@[j]).1 as int,
                    r@[j].2 as int,
                    r@[j].0,
                ),
            forall|x: int, yy: int, c: u8|
                0 <= yy < y && antenna(lsv, x, yy, c) ==> exists|j: int|
                    0 <= j < r@.len() && (#[trigger] r@[j]) == (c, x as usize, yy as usize),
        decreases ls@.len() - y,
    {
        proof {
            assert(lsv[y as int] == ls@[y as int]@);
        }
        let row = &ls[y];
        let mut x: usize = 0;
        while x < row.len()
            invariant
                lsv == bytes_view(ls@),
                0 <= y < ls@.len(),
                row == ls@[y as int],
                lsv[y as int] == row@,
                0 <= x <= row@.len(),
                forall|j: int|
                    0 <= j < r@.len() ==> antenna(
                        lsv,
                        (#[trigger] r@[j]).1 as int,
                        r@[j].2 as int,
                        r@[j].0,
                    ),
                forall|xx: int, yy: int, c: u8|
                    0 <= yy < y && antenna(lsv, xx, yy, c) ==> exists|j: int|
                        0 <= j < r@.len() && (#[trigger] r@[j]) == (c, xx as usize, yy as usize),
                forall|xx: int, c: u8|
                    0 <= xx < x && antenna(lsv, xx, y as int, c) ==> exists|j: int|
                        0 <= j < r@.len() && (#[trigger] r@[j]) == (c, xx as usize, y as usize),
            decreases row@.len() - x,
        {
            let b = row[x];
            let ghost r0 = r@;
            if b != 46 {
                r.push((b, x, y));
                proof {
                    assert(r@[r@.len() - 1] == (b, x, y));
                }
            }
            proof {
                assert forall|xx: int, c: u8|
                    0 <= xx < x + 1 && antenna(lsv, xx, y as int, c) implies exists|j: int|
                    0 <= j < r@.len() && (#[trigger] r@[j]) == (c, xx as usize, y as usize) by {
                    if xx < x {
                        let j = choose|j: int|
                            0 <= j < r0.len() && (#[trigger] r0[j]) == (c, xx as usize, y as usize);
                        assert(r@[j] == (c, xx as usize, y as usize));
                    } else {
                        assert(c == b && b != 46);
                        assert(r@[r@.len() - 1] == (c, xx as usize, y as usize));
                    }
                }
                assert forall|xx: int, yy: int, c: u8|
                    0 <= yy < y && antenna(lsv, xx, yy, c) implies exists|j: int|
                    0 <= j < r@.len() && (#[trigger] r@[j]) == (c, xx as usize, yy as usize) by {
                    let j = choose|j: int|
                        0 <= j < r0.len() && (#[trigger] r0[j]) == (c, xx as usize, yy as usize);
                    assert(r@[j] == (c, xx as usize, yy as usize));
                }
            }
            x = x + 1;
        }
        y = y + 1;
    }
    r
}

/// A grown mask keeps every step marked.
proof fn lemma_marked_mono(
    m0: Seq<bool>,
    m1: Seq<bool>,
    w: int,
    h: int,
    p: (u8, usize, usize),
    q: (u8, usize, usize),
    k: int,
)
    requires
        m0.len() == m1.len(),
        forall|z: int| 0 <= z < m0.len() && (#[trigger] m0[z]) ==> m1[z],
        w >= 1,
        h >= 1,
        m0.len() == w * h,
        marked_step(m0, w, h, p, q, k),
    ensures
        marked_step(m1, w, h, p, q, k),
{
    let x = p.1 - k * (p.1 - q.1);
    let y = p.2 - k * (p.2 - q.2);
    if in_frame(w, h, x, y) {
        crate::d18::lemma_rowcol(w, h, y, x);
        assert(m0[y * w + x]);
    }
}

/// Marks the in-frame step-`k` antinodes of the ordered pair `(p, q)`, for
/// every `k` from `klo` through `khi`.
fn mark_pair(
    mask: &mut Vec<bool>,
    w: usize,
    h: usize,
    p: (u8, usize, usize),
    q: (u8, usize, usize),
    klo: u64,
    khi: u64,
) -> (done: bool)
    requires
        w >= 1,
        h >= 1,
        w * h <= usize::MAX,
        old(mask)@.len() == w * h,
        1 <= klo <= 2,
        klo <= khi <= 0x7fffffff,
    ensures
        done,
        final(mask)@.len() == old(mask)@.len(),
        forall|z: int| 0 <= z < old(mask)@.len() && (#[trigger] old(mask)@[z]) ==> final(mask)@[z],
        forall|k: int|
            klo <= k <= khi ==> #[trigger] marked_step(final(mask)@, w as int, h as int, p, q, k),
        forall|z: int|
            0 <= z < final(mask)@.len() && (#[trigger] final(mask)@[z]) && !old(mask)@[z]
                ==> exists|k: int|
                klo <= k <= khi && in_frame(
                    w as int,
                    h as int,
                    p.1 - k * (p.1 - q.1),
                    p.2 - #[trigger] (k * (p.2 - q.2)),
                ) && z == (p.2 - k * (p.2 - q.2)) * w + (p.1 - k * (p.1 - q.1)),
{
    let (_, px, py) = p;
    let (_, qx, qy) = q;
    let ghost m00 = mask@;
    let mut k: u64 = klo;
    while k <= khi
        invariant
            w >= 1,
            h >= 1,
            w * h <= usize::MAX,
            mask@.len() == w * h,
            m00.len() == w * h,
            (p.1, p.2) == (px, py),
            (q.1, q.2) == (qx, qy),
            1 <= klo <= 2,
            klo <= khi <= 0x7fffffff,
            klo <= k <= khi + 1,
            forall|z: int| 0 <= z < m00.len() && (#[trigger] m00[z]) ==> mask@[z],
            forall|k2: int|
                klo <= k2 < k ==> #[trigger] marked_step(mask@, w as int, h as int, p, q, k2),
            forall|z: int|
                0 <= z < mask@.len() && (#[trigger] mask@[z]) && !m00[z] ==> exists|k2: int|
                    klo <= k2 <= khi && in_frame(
                        w as int,
                        h as int,
                        p.1 - k2 * (p.1 - q.1),
                        p.2 - #[trigger] (k2 * (p.2 - q.2)),
                    ) && z == (p.2 - k2 * (p.2 - q.2)) * w + (p.1 - k2 * (p.1 - q.1)),
        decreases khi + 1 - k,
    {
        proof {
            assert((k as int) * ((px as int) - (qx as int))
                <= 39614081257132168796771975168 && (k as int) * ((px as int) - (
            qx as int)) >= -39614081257132168796771975168 && (k as int) * ((py as int) - (
            qy as int)) <= 39614081257132168796771975168 && (k as int) * ((py as int) - (
            qy as int)) >= -39614081257132168796771975168) by (nonlinear_arith)
                requires
                    1 <= k as int <= 0x7fffffff,
                    0 <= px as int <= 18446744073709551615,
                    0 <= qx as int <= 18446744073709551615,
                    0 <= py as int <= 18446744073709551615,
                    0 <= qy as int <= 18446744073709551615,
            {}
        }
        let cx: i128 = (px as i128) - (k as i128) * ((px as i128) - (qx as i128));
        let cy: i128 = (py as i128) - (k as i128) * ((py as i128) - (qy as i128));
        proof {
            assert(cx as int == p.1 - (k as int) * (p.1 - q.1));
            assert(cy as int == p.2 - (k as int) * (p.2 - q.2));
        }
        let ghost m0 = mask@;
        if cx >= 0 && cy >= 0 && cx < w as i128 && cy < h as i128 {
            let ux = cx as usize;
            let uy = cy as usize;
            proof {
                crate::d18::lemma_rowcol(w as int, h as int, uy as int, ux as int);
            }
            let idx = uy * w + ux;
            mask.set(idx, true);
            proof {
                assert forall|z: int| 0 <= z < m00.len() && (#[trigger] m00[z]) implies mask@[z] by {
                    assert(m0[z]);
                }
                assert forall|z: int|
                    0 <= z < mask@.len() && (#[trigger] mask@[z]) && !m00[z] implies exists|
                    k2: int,
                |
                    klo <= k2 <= khi && in_frame(
                        w as int,
                        h as int,
                        p.1 - k2 * (p.1 - q.1),
                        p.2 - #[trigger] (k2 * (p.2 - q.2)),
                    ) && z == (p.2 - k2 * (p.2 - q.2)) * w + (p.1 - k2 * (p.1 - q.1)) by {
                    if z == idx as int {
                        assert(klo <= k as int <= khi && in_frame(
                            w as int,
                            h as int,
                            p.1 - (k as int) * (p.1 - q.1),
                            p.2 - #[trigger] ((k as int) * (p.2 - q.2)),
                        ) && z == (p.2 - (k as int) * (p.2 - q.2)) * w + (p.1 - (k as int) * (p.1
                            - q.1)));
                    } else {
                        assert(m0[z]);
                    }
                }
                assert forall|k2: int| klo <= k2 < k + 1 implies #[trigger] marked_step(
                    mask@,
                    w as int,
                    h as int,
                    p,
                    q,
                    k2,
                ) by {
                    if k2 < k {
                        lemma_marked_mono(m0, mask@, w as int, h as int, p, q, k2);
                    } else {
                        assert(mask@[idx as int]);
                    }
                }
            }
        } else {
            proof {
                assert forall|k2: int| klo <= k2 < k + 1 implies #[trigger] marked_step(
                    mask@,
                    w as int,
                    h as int,
                    p,
                    q,
                    k2,
                ) by {
                    if k2 == k as int {
                        assert(!in_frame(
                            w as int,
                            h as int,
                            p.1 - k2 * (p.1 - q.1),
                            p.2 - k2 * (p.2 - q.2),
                        ));
                    }
                }
            }
        }
        k = k + 1;
    }
    true
}

/// Marks the in-frame antinodes of every ordered antenna pair and counts the
/// marked cells.  Part one marks the single cell one step beyond the second
/// antenna; part two marks every step along the line up through `kmax`.
fn count_antinodes(input: &str, kmax: u64, part_one: bool) -> (r: Option<usize>)
    requires
        1 <= kmax <= 0x7fffffff,
    ensures
        ({
            let ls = lines_of(input.spec_bytes());
            let w = grid_w(ls);
            let h = ls.len() as int;
            match r {
                Some(v) => w * h <= usize::MAX && (if part_one {
                    v as int == count_true(antinode_mask1(ls, w, h))
                } else {
                    v as int == count_true(antinode_mask2(ls, w, h, kmax as int))
                }),
                None => w * h > usize::MAX,
            }
        }),
{
    let s = input.as_bytes();
    let ls = split_lines(s);
    let ghost lsv = lines_of(input.spec_bytes());
    let h = ls.len();
    let w = if h == 0 {
        0
    } else {
        ls[h - 1].len()
    };
    proof {
        if h > 0 {
            assert(lsv[h - 1] == ls@[h - 1]@);
        }
        assert(w as int == grid_w(lsv));
    }
    if w != 0 && h > usize::MAX / w {
        proof {
            assert((w as int) * (h as int) > usize::MAX) by (nonlinear_arith)
                requires
                    w as int >= 1,
                    h as int > (usize::MAX as int) / (w as int),
            {}
        }
        return None;
    }
    proof {
        if w == 0 {
            assert((w as int) * (h as int) == 0) by (nonlinear_arith)
                requires
                    w as int == 0,
            {}
        } else {
            assert((w as int) * (h as int) <= usize::MAX) by (nonlinear_arith)
                requires
                    w as int >= 1,
                    0 <= h as int <= (usize::MAX as int) / (w as int),
        {}
        }
    }
    let n: usize = w * h;
    let ants = collect_antennas(&ls);
    let mut mask: Vec<bool> = Vec::new();
    let mut t: usize = 0;
    while t < n
        invariant
            0 <= t <= n,
            mask@.len() == t,
            forall|u: int| 0 <= u < t ==> !(#[trigger] mask@[u]),
        decreases n - t,
    {
        mask.push(false);
        t = t + 1;
    }
    let ghost target = if part_one {
        antinode_mask1(lsv, w as int, h as int)
    } else {
        antinode_mask2(lsv, w as int, h as int, kmax as int)
    };
    let klo: u64 = if part_one {
        2
    } else {
        1
    };
    let khi: u64 = if part_one {
        2
    } else {
        kmax
    };
    if w == 0 || h == 0 {
        // an empty frame has no cells to count
        proof {
            assert(target.len() == 0);
            crate::reach::lemma_count_true_empty(target);
        }
        return Some(0);
    }
    let na = ants.len();
    let mut i: usize = 0;
    while i < na
        invariant
            lsv == lines_of(input.spec_bytes()),
            w as int == grid_w(lsv),
            h as int == lsv.len(),
            w >= 1,
            h >= 1,
            n == w * h,
            na == ants@.len(),
            mask@.len() == n,
            1 <= kmax <= 0x7fffffff,
            klo == if part_one {
                2u64
            } else {
                1u64
            },
            khi == if part_one {
                2u64
            } else {
                kmax
            },
            target == if part_one {
                antinode_mask1(lsv, w as int, h as int)
            } else {
                antinode_mask2(lsv, w as int, h as int, kmax as int)
            },
            target.len() == n,
            forall|j: int|
                0 <= j < ants@.len() ==> antenna(
                    lsv,
                    (#[trigger] ants@[j]).1 as int,
                    ants@[j].2 as int,
                    ants@[j].0,
                ),
            forall|x: int, y: int, c: u8|
                antenna(lsv, x, y, c) ==> exists|j: int|
                    0 <= j < ants@.len() && (#[trigger] ants@[j]) == (c, x as usize, y as usize),
            0 <= i <= na,
            forall|u: int| 0 <= u < n && (#[trigger] mask@[u]) ==> target[u],
            forall|ii: int, jj: int, k: int|
                0 <= ii < i && 0 <= jj < ants@.len() && ants@[ii] != ants@[jj]
                    && ants@[ii].0 == ants@[jj].0 && klo <= k <= khi
                    ==> #[trigger] marked_step(mask@, w as int, h as int, ants@[ii], ants@[jj], k),
        decreases na - i,
    {
        let (ci, xi, yi) = ants[i];
        let mut j: usize = 0;
        while j < na
            invariant
                lsv == lines_of(input.spec_bytes()),
                w as int == grid_w(lsv),
                h as int == lsv.len(),
                w >= 1,
                h >= 1,
                n == w * h,
                na == ants@.len(),
                mask@.len() == n,
                1 <= kmax <= 0x7fffffff,
                klo == if part_one {
                    2u64
                } else {
                    1u64
                },
                khi == if part_one {
                    2u64
                } else {
                    kmax
                },
                target == if part_one {
                    antinode_mask1(lsv, w as int, h as int)
                } else {
                    antinode_mask2(lsv, w as int, h as int, kmax as int)
                },
                target.len() == n,
                forall|jj: int|
                    0 <= jj < ants@.len() ==> antenna(
                        lsv,
                        (#[trigger] ants@[jj]).1 as int,
                        ants@[jj].2 as int,
                        ants@[jj].0,
                    ),
                i < na,
                (ci, xi, yi) == ants@[i as int],
                0 <= j <= na,
                forall|u: int| 0 <= u < n && (#[trigger] mask@[u]) ==> target[u],
                forall|ii: int, jj: int, k: int|
                    0 <= ii < i && 0 <= jj < ants@.len() && ants@[ii] != ants@[jj]
                        && ants@[ii].0 == ants@[jj].0 && klo <= k <= khi
                        ==> #[trigger] marked_step(
                        mask@,
                        w as int,
                        h as int,
                        ants@[ii],
                        ants@[jj],
                        k,
                    ),
                forall|jj: int, k: int|
                    0 <= jj < j && ants@[i as int] != ants@[jj] && ants@[jj].0 == ci && klo <= k
                        <= khi ==> #[trigger] marked_step(
                        mask@,
                        w as int,
                        h as int,
                        ants@[i as int],
                        ants@[jj],
                        k,
                    ),
            decreases na - j,
        {
            let (cj, xj, yj) = ants[j];
            if cj == ci && !(xi == xj && yi == yj) {
                let ghost m0 = mask@;
                let _ = mark_pair(&mut mask, w, h, (ci, xi, yi), (cj, xj, yj), klo, khi);
                proof {
                    // sound: every new mark is a real antinode of this pair
                    assert forall|u: int|
                        0 <= u < n && (#[trigger] mask@[u]) implies target[u] by {
                        if !m0[u] {
                            let k = choose|k: int|
                                klo <= k <= khi && in_frame(
                                    w as int,
                                    h as int,
                                    xi - k * (xi as int - xj as int),
                                    yi - #[trigger] (k * (yi as int - yj as int)),
                                ) && u == (yi - k * (yi as int - yj as int)) * w + (xi - k * (
                                xi as int - xj as int));
                            let x = xi - k * (xi as int - xj as int);
                            let y = yi - k * (yi as int - yj as int);
                            crate::d18::lemma_rowcol(w as int, h as int, y, x);
                            assert(antenna(lsv, xi as int, yi as int, ci));
                            assert(antenna(lsv, xj as int, yj as int, ci));
                            assert((xi as int, yi as int) != (xj as int, yj as int));
                            if part_one {
                                assert(x == 2 * (xj as int) - (xi as int) && y == 2 * (yj as int)
                                    - (yi as int));
                                assert(antinode1(lsv, x, y));
                            } else {
                                assert(antinode(lsv, x, y, kmax as int));
                            }
                        }
                    }
                    // earlier pairs stay marked
                    assert forall|ii: int, jj: int, k: int|
                        0 <= ii < i && 0 <= jj < ants@.len() && ants@[ii] != ants@[jj]
                            && ants@[ii].0 == ants@[jj].0 && klo <= k <= khi
                            implies #[trigger] marked_step(
                        mask@,
                        w as int,
                        h as int,
                        ants@[ii],
                        ants@[jj],
                        k,
                    ) by {
                        lemma_marked_mono(m0, mask@, w as int, h as int, ants@[ii], ants@[jj], k);
                    }
                    assert forall|jj: int, k: int|
                        0 <= jj < j + 1 && ants@[i as int] != ants@[jj] && ants@[jj].0 == ci && klo
                            <= k <= khi implies #[trigger] marked_step(
                        mask@,
                        w as int,
                        h as int,
                        ants@[i as int],
                        ants@[jj],
                        k,
                    ) by {
                        if jj < j {
                            lemma_marked_mono(
                                m0,
                                mask@,
                                w as int,
                                h as int,
                                ants@[i as int],
                                ants@[jj],
                                k,
                            );
                        } else {
                            assert(ants@[jj] == (cj, xj, yj));
                        }
                    }
                }
            } else {
                proof {
                    assert forall|jj: int, k: int|
                        0 <= jj < j + 1 && ants@[i as int] != ants@[jj] && ants@[jj].0 == ci && klo
                            <= k <= khi implies #[trigger] marked_step(
                        mask@,
                        w as int,
                        h as int,
                        ants@[i as int],
                        ants@[jj],
                        k,
                    ) by {
                        if jj == j {
                            assert(ants@[jj] == (cj, xj, yj));
                            assert(false);
                        }
                    }
                }
            }
            j = j + 1;
        }
        i = i + 1;
    }
    proof {
        // every antinode cell was marked by some ordered pair of antennas
        assert forall|u: int| 0 <= u < n && target[u] implies mask@[u] by {
            crate::d18::lemma_cell_coords(w as int, h as int, u);
            let x = u % (w as int);
            let y = u / (w as int);
            if part_one {
                let (c, x1, y1, x2, y2) = choose|c: u8, x1: int, y1: int, x2: int, y2: int|
                    {
                        &&& #[trigger] antenna(lsv, x1, y1, c)
                        &&& #[trigger] antenna(lsv, x2, y2, c)
                        &&& (x1, y1) != (x2, y2)
                        &&& x == 2 * x1 - x2 && y == 2 * y1 - y2
                    };
                crate::util::lemma_vec_len_bound(ls@[y1]);
                crate::util::lemma_vec_len_bound(ls@[y2]);
                assert(lsv[y1] == ls@[y1]@ && lsv[y2] == ls@[y2]@);
                let ii = choose|j2: int|
                    0 <= j2 < ants@.len() && (#[trigger] ants@[j2]) == (c, x2 as usize, y2 as usize);
                let jj = choose|j2: int|
                    0 <= j2 < ants@.len() && (#[trigger] ants@[j2]) == (c, x1 as usize, y1 as usize);
                assert(ants@[ii] != ants@[jj]);
                assert(marked_step(mask@, w as int, h as int, ants@[ii], ants@[jj], 2));
                assert(x == ants@[ii].1 - 2 * (ants@[ii].1 - ants@[jj].1));
                assert(y == ants@[ii].2 - 2 * (ants@[ii].2 - ants@[jj].2));
                assert(in_frame(w as int, h as int, x, y));
                assert(mask@[y * w + x]);
            } else {
                let (c, x1, y1, x2, y2, k) = choose|
                    c: u8,
                    x1: int,
                    y1: int,
                    x2: int,
                    y2: int,
                    k: int,
                |
                    #![trigger antenna(lsv, x1, y1, c), antenna(lsv, x2, y2, c), k * (x1 - x2)]
                    {
                        &&& antenna(lsv, x1, y1, c)
                        &&& antenna(lsv, x2, y2, c)
                        &&& (x1, y1) != (x2, y2)
                        &&& 1 <= k <= kmax as int
                        &&& x == x1 - k * (x1 - x2) && y == y1 - k * (y1 - y2)
                    };
                crate::util::lemma_vec_len_bound(ls@[y1]);
                crate::util::lemma_vec_len_bound(ls@[y2]);
                assert(lsv[y1] == ls@[y1]@ && lsv[y2] == ls@[y2]@);
                let ii = choose|j2: int|
                    0 <= j2 < ants@.len() && (#[trigger] ants@[j2]) == (c, x1 as usize, y1 as usize);
                let jj = choose|j2: int|
                    0 <= j2 < ants@.len() && (#[trigger] ants@[j2]) == (c, x2 as usize, y2 as usize);
                assert(ants@[ii] != ants@[jj]);
                assert(marked_step(mask@, w as int, h as int, ants@[ii], ants@[jj], k));
                assert(x == ants@[ii].1 - k * (ants@[ii].1 - ants@[jj].1));
                assert(y == ants@[ii].2 - k * (ants@[ii].2 - ants@[jj].2));
                assert(in_frame(w as int, h as int, x, y));
                assert(mask@[y * w + x]);
            }
        }
        assert(mask@ =~= target);
    }
    // count the marked cells
    let mut cnt: usize = 0;
    let mut u: usize = 0;
    proof {
        crate::reach::lemma_count_true_empty(mask@.take(0));
    }
    while u < n
        invariant
            mask@.len() == n,
            0 <= u <= n,
            cnt <= u,
            cnt as int == count_true(mask@.take(u as int)),
        decreases n - u,
    {
        proof {
            assert(mask@.take(u + 1).drop_last() =~= mask@.take(u as int));
            assert(mask@.take(u + 1).last() == mask@[u as int]);
        }
        if mask[u] {
            cnt = cnt + 1;
        }
        u = u + 1;
    }
    proof {
        assert(mask@.take(n as int) =~= mask@);
    }
    Some(cnt)
}

/// The cell lies in the `w` by `h` frame.
pub open spec fn in_frame(w: int, h: int, x: int, y: int) -> bool {
    0 <= x < w && 0 <= y < h
}

/// The `k`-step antinode of the ordered antenna pair `(p, q)` is marked if it
/// lies in the frame.
pub open spec fn marked_step(
    mask: Seq<bool>,
    w: int,
    h: int,
    p: (u8, usize, usize),
    q: (u8, usize, usize),
    k: int,
) -> bool {
    in_frame(w, h, p.1 - k * (p.1 - q.1), p.2 - k * (p.2 - q.2)) ==> mask[(p.2 - k * (p.2 - q.2))
        * w + (p.1 - k * (p.1 - q.1))]
}

/// Counts the cells holding an antinode one step past a pair of antennas.
pub fn part1(input: &str) -> (r: Option<usize>)
    ensures
        ({
            let ls = lines_of(input.spec_bytes());
            let w = grid_w(ls);
            let h = ls.len() as int;
            match r {
                Some(v) => w * h <= usize::MAX && v as int == count_true(antinode_mask1(ls, w, h)),
                None => w * h > usize::MAX,
            }
        }),
{
    count_antinodes(input, 1, true)
}

/// Counts the cells in line with a pair of antennas, any number of steps.
pub fn part2(input: &str) -> (r: Option<usize>)
    ensures
        ({
            let ls = lines_of(input.spec_bytes());
            let w = grid_w(ls);
            let h = ls.len() as int;
            match r {
                Some(v) => w * h <= usize::MAX && v as int == count_true(
                    antinode_mask2(ls, w, h, w + h),
                ),
                None => w * h > usize::MAX || w + h > 0x7fffffff || w + h == 0,
            }
        }),
{
    let s = input.as_bytes();
    let ls = split_lines(s);
    let h = ls.len();
    let w = if h == 0 {
        0
    } else {
        ls[h - 1].len()
    };
    proof {
        assert(h > 0 ==> bytes_view(ls@)[h - 1] == ls@[h - 1]@);
        assert(w as int == grid_w(lines_of(input.spec_bytes())));
    }
    let sum: u128 = (w as u128) + (h as u128);
    if sum > 0x7fffffff || sum == 0 {
        return None;
    }
    count_antinodes(input, sum as u64, false)
}

} // verus!
