//! A letter grid: part one counts occurrences of the word `XMAS` in all
//! eight directions; part two counts `X`-shaped crossings of two `MAS`.

use vstd::prelude::*;

use crate::util::{bytes_view, lines_of, split_lines, trim_bytes, trim_spec};
use vstd::string::StringSliceAdditionalSpecFns;

verus! {

/// The grid: every line, trimmed.
pub open spec fn grid_of(s: Seq<u8>) -> Seq<Seq<u8>> {
    lines_of(s).map_values(|l: Seq<u8>| trim_spec(l))
}

/// The word to find.
pub open spec fn xmas_word() -> Seq<u8> {
    seq![88u8, 77u8, 65u8, 83u8]
}

/// Step `i` of the word reads correctly from `(x, y)` along `(dx, dy)`.
pub open spec fn dir_hit_at(g: Seq<Seq<u8>>, y: int, x: int, dy: int, dx: int, i: int) -> bool {
    let yy = y + i * dy;
    let xx = x + i * dx;
    &&& 0 <= yy < g.len()
    &&& 0 <= xx < g[yy].len()
    &&& g[yy][xx] == xmas_word()[i]
}

/// The word reads from `(x, y)` along `(dx, dy)`.
pub open spec fn dir_hit(g: Seq<Seq<u8>>, y: int, x: int, dy: int, dx: int) -> bool {
    forall|i: int| 0 <= i < 4 ==> #[trigger] dir_hit_at(g, y, x, dy, dx, i)
}

/// How many of the eight directions read the word from `(x, y)`.
pub open spec fn cell_count(g: Seq<Seq<u8>>, y: int, x: int) -> int {
    (if dir_hit(g, y, x, 0, 1) {
        1int
    } else {
        0int
    }) + (if dir_hit(g, y, x, 1, 0) {
        1int
    } else {
        0int
    }) + (if dir_hit(g, y, x, 0, -1) {
        1int
    } else {
        0int
    }) + (if dir_hit(g, y, x, -1, 0) {
        1int
    } else {
        0int
    }) + (if dir_hit(g, y, x, 1, 1) {
        1int
    } else {
        0int
    }) + (if dir_hit(g, y, x, -1, -1) {
        1int
    } else {
        0int
    }) + (if dir_hit(g, y, x, 1, -1) {
        1int
    } else {
        0int
    }) + (if dir_hit(g, y, x, -1, 1) {
        1int
    } else {
        0int
    })
}

/// Row-major fold of the per-cell counts, giving up near `u64::MAX`.
pub open spec fn d04_fold(g: Seq<Seq<u8>>, y: int, x: int, acc: int) -> Option<int>
    decreases g.len() - y, (if 0 <= y < g.len() {
            g[y].len() + 1
        } else {
            1nat
        }) - x,
{
    if y < 0 || x < 0 || y >= g.len() {
        Some(acc)
    } else if x >= g[y].len() {
        d04_fold(g, y + 1, 0, acc)
    } else if acc > u64::MAX - 8 {
        None
    } else {
        d04_fold(g, y, x + 1, acc + cell_count(g, y, x))
    }
}

/// The grid's word count.
pub open spec fn d04_part1_spec(s: Seq<u8>) -> Option<int> {
    d04_fold(grid_of(s), 0, 0, 0)
}

/// Whether the word reads from `(x, y)` along `(dx, dy)`.
fn check_dir(g: &Vec<Vec<u8>>, y: usize, x: usize, dy: i64, dx: i64) -> (r: bool)
    requires
        -1 <= dy <= 1,
        -1 <= dx <= 1,
    ensures
        r == dir_hit(bytes_view(g@), y as int, x as int, dy as int, dx as int),
{
    let ghost gv = bytes_view(g@);
    let mut i: usize = 0;
    while i < 4
        invariant
            gv == bytes_view(g@),
            -1 <= dy <= 1,
            -1 <= dx <= 1,
            0 <= i <= 4,
            forall|t: int| 0 <= t < i ==> #[trigger] dir_hit_at(gv, y as int, x as int, dy as int, dx as int, t),
        decreases 4 - i,
    {
        let stepy: i128 = if dy > 0 {
            i as i128
        } else if dy < 0 {
            -(i as i128)
        } else {
            0
        };
        let stepx: i128 = if dx > 0 {
            i as i128
        } else if dx < 0 {
            -(i as i128)
        } else {
            0
        };
        proof {
            let ii = i as int;
            assert(dy as int == 1 ==> ii * (dy as int) == ii) by (nonlinear_arith);
            assert(dy as int == -1 ==> ii * (dy as int) == -ii) by (nonlinear_arith);
            assert(dy as int == 0 ==> ii * (dy as int) == 0) by (nonlinear_arith);
            assert(stepy as int == ii * (dy as int));
            assert(dx as int == 1 ==> ii * (dx as int) == ii) by (nonlinear_arith);
            assert(dx as int == -1 ==> ii * (dx as int) == -ii) by (nonlinear_arith);
            assert(dx as int == 0 ==> ii * (dx as int) == 0) by (nonlinear_arith);
            assert(stepx as int == ii * (dx as int));
        }
        let yy: i128 = (y as i128) + stepy;
        let xx: i128 = (x as i128) + stepx;
        proof {
            assert(yy as int == y as int + (i as int) * (dy as int));
            assert(xx as int == x as int + (i as int) * (dx as int));
        }
        if yy < 0 || xx < 0 || yy >= g.len() as i128 {
            proof {
                if dir_hit(gv, y as int, x as int, dy as int, dx as int) {
                    assert(dir_hit_at(gv, y as int, x as int, dy as int, dx as int, i as int));
                }
            }
            return false;
        }
        let yu = yy as usize;
        let row = &g[yu];
        if xx >= row.len() as i128 {
            proof {
                assert(gv[yu as int] == g@[yu as int]@);
                if dir_hit(gv, y as int, x as int, dy as int, dx as int) {
                    assert(dir_hit_at(gv, y as int, x as int, dy as int, dx as int, i as int));
                }
            }
            return false;
        }
        let xu = xx as usize;
        let want: u8 = if i == 0 {
            88
        } else if i == 1 {
            77
        } else if i == 2 {
            65
        } else {
            83
        };
        if row[xu] != want {
            proof {
                assert(gv[yu as int] == g@[yu as int]@);
                assert(gv[yu as int][xu as int] != xmas_word()[i as int]);
                if dir_hit(gv, y as int, x as int, dy as int, dx as int) {
                    assert(dir_hit_at(gv, y as int, x as int, dy as int, dx as int, i as int));
                }
            }
            return false;
        }
        proof {
            assert(gv[yu as int] == g@[yu as int]@);
            assert(gv[yu as int][xu as int] == xmas_word()[i as int]);
            assert(dir_hit_at(gv, y as int, x as int, dy as int, dx as int, i as int));
        }
        i = i + 1;
    }
    true
}

/// The number of directions reading the word from `(x, y)`.
fn cell_dirs(g: &Vec<Vec<u8>>, y: usize, x: usize) -> (r: u64)
    ensures
        r as int == cell_count(bytes_view(g@), y as int, x as int),
        r <= 8,
{
    let mut r: u64 = 0;
    if check_dir(g, y, x, 0, 1) {
        r = r + 1;
    }
    if check_dir(g, y, x, 1, 0) {
        r = r + 1;
    }
    if check_dir(g, y, x, 0, -1) {
        r = r + 1;
    }
    if check_dir(g, y, x, -1, 0) {
        r = r + 1;
    }
    if check_dir(g, y, x, 1, 1) {
        r = r + 1;
    }
    if check_dir(g, y, x, -1, -1) {
        r = r + 1;
    }
    if check_dir(g, y, x, 1, -1) {
        r = r + 1;
    }
    if check_dir(g, y, x, -1, 1) {
        r = r + 1;
    }
    r
}

/// Builds the grid from the input text.
fn build_grid(input: &str) -> (g: Vec<Vec<u8>>)
    ensures
        bytes_view(g@) == grid_of(input.spec_bytes()),
{
    let bytes = input.as_bytes();
    let ls = split_lines(bytes);
    let mut g: Vec<Vec<u8>> = Vec::new();
    let mut j: usize = 0;
    while j < ls.len()
        invariant
            bytes_view(ls@) == lines_of(input.spec_bytes()),
            0 <= j <= ls@.len(),
            g@.len() == j,
            forall|k: int|
                0 <= k < j ==> (#[trigger] g@[k])@ == trim_spec(lines_of(input.spec_bytes())[k]),
        decreases ls@.len() - j,
    {
        proof {
            assert(bytes_view(ls@)[j as int] == ls@[j as int]@);
        }
        let row = trim_bytes(ls[j].as_slice());
        g.push(row);
        j = j + 1;
    }
    proof {
        assert(bytes_view(g@) =~= grid_of(input.spec_bytes()));
    }
    g
}

/// Counts how often the word reads in the grid, over every cell and
/// direction.
///
/// Returns `None` exactly when the running count passes `u64::MAX - 8`.
pub fn part1(input: &str) -> (r: Option<u64>)
    ensures
        match r {
            Some(v) => d04_part1_spec(input.spec_bytes()) == Some(v as int),
            None => d04_part1_spec(input.spec_bytes()) is None,
        },
{
    let g = build_grid(input);
    let ghost gv = grid_of(input.spec_bytes());
    let mut count: u64 = 0;
    let mut y: usize = 0;
    while y < g.len()
        invariant
            bytes_view(g@) == gv,
            gv == grid_of(input.spec_bytes()),
            0 <= y <= g@.len(),
            d04_fold(gv, 0, 0, 0) == d04_fold(gv, y as int, 0, count as int),
        decreases g@.len() - y,
    {
        let row_len = g[y].len();
        proof {
            assert(gv[y as int] == g@[y as int]@);
        }
        let mut x: usize = 0;
        while x < row_len
            invariant
                bytes_view(g@) == gv,
                gv == grid_of(input.spec_bytes()),
                0 <= y < g@.len(),
                row_len == gv[y as int].len(),
                0 <= x <= row_len,
                d04_fold(gv, 0, 0, 0) == d04_fold(gv, y as int, x as int, count as int),
            decreases row_len - x,
        {
            if count > u64::MAX - 8 {
                return None;
            }
            let d = cell_dirs(&g, y, x);
            count = count + d;
            x = x + 1;
        }
        proof {
            assert(d04_fold(gv, y as int, row_len as int, count as int) == d04_fold(
                gv,
                y + 1,
                0,
                count as int,
            ));
        }
        y = y + 1;
    }
    Some(count)
}

/// Whether the cell at `(x, y)` (holding `A`) is crossed by two `MAS`, read
/// from its four corners; `None` when a corner is off its row.
pub open spec fn p2_cell(g: Seq<Seq<u8>>, y: int, x: int) -> Option<bool> {
    if g[y][x] != 65 {
        Some(false)
    } else if !(0 <= x - 1 && x - 1 < g[y - 1].len() && x - 1 < g[y + 1].len() && x + 1 < g[y
        - 1].len() && x + 1 < g[y + 1].len()) {
        None
    } else {
        let v0 = g[y - 1][x - 1];
        let v1 = g[y + 1][x - 1];
        let v2 = g[y - 1][x + 1];
        let v3 = g[y + 1][x + 1];
        Some(
            (v0 == 77 && v1 == 77 && v2 == 83 && v3 == 83) || (v0 == 83 && v1 == 83 && v2 == 77
                && v3 == 77) || (v0 == 83 && v1 == 77 && v2 == 83 && v3 == 77) || (v0 == 77 && v1
                == 83 && v2 == 77 && v3 == 83),
        )
    }
}

/// Fold of the crossing counts over the grid interior; `None` on an empty
/// grid or row, a corner off its row, or a count near `u64::MAX`.
pub open spec fn d04p2_fold(g: Seq<Seq<u8>>, y: int, x: int, acc: int) -> Option<int>
    decreases g.len() - y, (if 0 <= y < g.len() {
            g[y].len() + 1
        } else {
            1nat
        }) - x,
{
    if y < 1 || x < 1 || y >= g.len() - 1 {
        Some(acc)
    } else if g[y].len() == 0 {
        None
    } else if x >= g[y].len() - 1 {
        d04p2_fold(g, y + 1, 1, acc)
    } else {
        match p2_cell(g, y, x) {
            None => None,
            Some(hit) => if acc >= u64::MAX {
                None
            } else {
                d04p2_fold(g, y, x + 1, acc + if hit {
                    1int
                } else {
                    0int
                })
            },
        }
    }
}

/// The grid's crossing count; the grid must have rows at all.
pub open spec fn d04_part2_spec(s: Seq<u8>) -> Option<int> {
    let g = grid_of(s);
    if g.len() == 0 {
        None
    } else {
        d04p2_fold(g, 1, 1, 0)
    }
}

/// Counts the `X`-shaped `MAS` crossings over the grid interior.
///
/// Returns `None` exactly when the grid is empty, an interior row is empty or
/// shorter than its neighbours around a crossing, or the count nears
/// `u64::MAX`.
pub fn part2(input: &str) -> (r: Option<u64>)
    ensures
        match r {
            Some(v) => d04_part2_spec(input.spec_bytes()) == Some(v as int),
            None => d04_part2_spec(input.spec_bytes()) is None,
        },
{
    let g = build_grid(input);
    let ghost gv = grid_of(input.spec_bytes());
    if g.len() == 0 {
        return None;
    }
    let mut count: u64 = 0;
    let mut y: usize = 1;
    while y < g.len() - 1
        invariant
            bytes_view(g@) == gv,
            gv == grid_of(input.spec_bytes()),
            g@.len() >= 1,
            1 <= y,
            y <= g@.len() || y == 1,
            d04p2_fold(gv, 1, 1, 0) == d04p2_fold(gv, y as int, 1, count as int),
        decreases g@.len() - y,
    {
        let row_len = g[y].len();
        proof {
            assert(gv[y as int] == g@[y as int]@);
        }
        if row_len == 0 {
            return None;
        }
        let mut x: usize = 1;
        while x < row_len - 1
            invariant
                bytes_view(g@) == gv,
                gv == grid_of(input.spec_bytes()),
                1 <= y < g@.len() - 1,
                g@.len() <= usize::MAX,
                row_len == gv[y as int].len(),
                row_len >= 1,
                1 <= x,
                x <= row_len || x == 1,
                d04p2_fold(gv, 1, 1, 0) == d04p2_fold(gv, y as int, x as int, count as int),
            decreases row_len - x,
        {
            proof {
                assert(gv[y as int] == g@[y as int]@);
                assert(gv[y - 1] == g@[y - 1]@);
                assert(gv[y + 1] == g@[y + 1]@);
            }
            if g[y][x] == 65 {
                let up = &g[y - 1];
                let down = &g[y + 1];
                if !(x + 1 < up.len() && x + 1 < down.len()) {
                    return None;
                }
                let v0 = up[x - 1];
                let v1 = down[x - 1];
                let v2 = up[x + 1];
                let v3 = down[x + 1];
                let hit = (v0 == 77 && v1 == 77 && v2 == 83 && v3 == 83) || (v0 == 83 && v1 == 83
                    && v2 == 77 && v3 == 77) || (v0 == 83 && v1 == 77 && v2 == 83 && v3 == 77) || (
                v0 == 77 && v1 == 83 && v2 == 77 && v3 == 83);
                if count >= u64::MAX {
                    return None;
                }
                if hit {
                    count = count + 1;
                }
                proof {
                    assert(p2_cell(gv, y as int, x as int) == Some(hit));
                }
            } else {
                if count >= u64::MAX {
                    return None;
                }
                proof {
                    assert(p2_cell(gv, y as int, x as int) == Some(false));
                }
            }
            x = x + 1;
        }
        proof {
            assert(d04p2_fold(gv, y as int, x as int, count as int) == d04p2_fold(
                gv,
                y + 1,
                1,
                count as int,
            ));
        }
        y = y + 1;
    }
    Some(count)
}

} // verus!
