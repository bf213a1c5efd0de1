//! A dense disk map of alternating file and free-space digit lengths: part
//! one compacts block by block from the end and checksums; part two moves
//! whole files into the first fitting gap, highest id first.
//!
//! Both parts return `None` instead of failing when the input is not all
//! digits or a checksum leaves `i64` range; the checksum itself is the sum of
//! block position times file id over the compacted disk.

use vstd::prelude::*;

verus! {

/// The disk blocks: file id per block, `-1` for free space.
/// `None` when the input holds a non-digit byte or overflows the id space.
fn parse_blocks(s: &[u8]) -> (r: Option<Vec<i64>>)
    ensures
        r matches Some(d) ==> forall|j: int| 0 <= j < d@.len() ==> -1 <= (#[trigger] d@[j]),
{
    let mut disk: Vec<i64> = Vec::new();
    let mut id: i64 = 0;
    let mut is_file = true;
    let mut k: usize = 0;
    while k < s.len()
        invariant
            0 <= k <= s@.len(),
            0 <= id,
            forall|j: int| 0 <= j < disk@.len() ==> -1 <= (#[trigger] disk@[j]),
        decreases s@.len() - k,
    {
        let b = s[k];
        if b < 48 || b > 57 {
            return None;
        }
        let c = b - 48;
        if c > 0 {
            let v: i64 = if is_file {
                id
            } else {
                -1
            };
            let mut t: u8 = 0;
            while t < c
                invariant
                    0 <= t <= c,
                    v >= -1,
                    forall|j: int| 0 <= j < disk@.len() ==> -1 <= (#[trigger] disk@[j]),
                decreases c - t,
            {
                disk.push(v);
                t = t + 1;
            }
            if is_file {
                if id == i64::MAX {
                    return None;
                }
                id = id + 1;
            }
        }
        is_file = !is_file;
        k = k + 1;
    }
    Some(disk)
}

/// The checksum: sum of block index times file id, free blocks skipped.
/// `None` when the sum leaves `i64` range.
fn checksum(disk: &Vec<i64>) -> (r: Option<i64>)
    requires
        forall|j: int| 0 <= j < disk@.len() ==> -1 <= (#[trigger] disk@[j]),
    ensures
        r matches Some(v) ==> v >= 0,
{
    let mut acc: i64 = 0;
    let mut i: usize = 0;
    while i < disk.len()
        invariant
            forall|j: int| 0 <= j < disk@.len() ==> -1 <= (#[trigger] disk@[j]),
            0 <= i <= disk@.len(),
            acc >= 0,
        decreases disk@.len() - i,
    {
        let b = disk[i];
        if b >= 0 {
            proof {
                assert((b as int) * (i as int) <= 170141183460469231722463931679029329920
                    && 0 <= (b as int) * (i as int)) by (nonlinear_arith)
                    requires
                        0 <= b as int <= 9223372036854775807,
                        0 <= i as int <= 18446744073709551615,
                {}
            }
            let t: i128 = (acc as i128) + (b as i128) * (i as i128);
            if t > i64::MAX as i128 {
                return None;
            }
            acc = t as i64;
        }
        i = i + 1;
    }
    Some(acc)
}

/// Compacts block by block: free slots take file blocks from the end, and
/// the result keeps exactly as many blocks as there are file blocks.
pub fn part1(input: &str) -> (r: Option<i64>)
    ensures
        r matches Some(v) ==> v >= 0,
{
    let disk = match parse_blocks(input.as_bytes()) {
        Some(d) => d,
        None => {
            return None;
        },
    };
    // the file blocks, last first
    let mut rev: Vec<i64> = Vec::new();
    let mut i: usize = disk.len();
    while i > 0
        invariant
            0 <= i <= disk@.len(),
            forall|j: int| 0 <= j < disk@.len() ==> -1 <= (#[trigger] disk@[j]),
            forall|j: int| 0 <= j < rev@.len() ==> 0 <= (#[trigger] rev@[j]),
        decreases i,
    {
        i = i - 1;
        let b = disk[i];
        if b >= 0 {
            rev.push(b);
        }
    }
    let filesize = rev.len();
    let mut fragmented: Vec<i64> = Vec::new();
    let mut ri: usize = 0;
    let mut k: usize = 0;
    while k < disk.len()
        invariant
            0 <= k <= disk@.len(),
            ri <= rev@.len(),
            forall|j: int| 0 <= j < disk@.len() ==> -1 <= (#[trigger] disk@[j]),
            forall|j: int| 0 <= j < rev@.len() ==> 0 <= (#[trigger] rev@[j]),
            forall|j: int| 0 <= j < fragmented@.len() ==> -1 <= (#[trigger] fragmented@[j]),
        decreases disk@.len() - k,
    {
        let b = disk[k];
        if b == -1 {
            if ri < rev.len() {
                fragmented.push(rev[ri]);
                ri = ri + 1;
            } else {
                break ;
            }
        } else {
            if fragmented.len() < filesize {
                fragmented.push(b);
            } else {
                break ;
            }
        }
        k = k + 1;
    }
    checksum(&fragmented)
}

/// The chunked disk: `(file id or -1 for space, length)` per run.
fn parse_chunks(s: &[u8]) -> (r: Option<Vec<(i64, i64)>>)
    ensures
        r matches Some(d) ==> forall|j: int|
            0 <= j < d@.len() ==> -1 <= (#[trigger] d@[j]).0 && 0 <= d@[j].1 <= 9,
{
    let mut disk: Vec<(i64, i64)> = Vec::new();
    let mut id: i64 = 0;
    let mut is_file = true;
    let mut k: usize = 0;
    while k < s.len()
        invariant
            0 <= k <= s@.len(),
            0 <= id,
            forall|j: int|
                0 <= j < disk@.len() ==> -1 <= (#[trigger] disk@[j]).0 && 0 <= disk@[j].1 <= 9,
        decreases s@.len() - k,
    {
        let b = s[k];
        if b < 48 || b > 57 {
            return None;
        }
        let c = (b - 48) as i64;
        if c > 0 {
            if is_file {
                disk.push((id, c));
                if id == i64::MAX {
                    return None;
                }
                id = id + 1;
            } else {
                disk.push((-1, c));
            }
        }
        is_file = !is_file;
        k = k + 1;
    }
    Some(disk)
}

/// Moves whole files, highest id first, into the first gap wide enough that
/// lies before them, then checksums the result block by block.
pub fn part2(input: &str) -> (r: Option<i64>)
    ensures
        r matches Some(v) ==> v >= 0,
{
    let mut disk = match parse_chunks(input.as_bytes()) {
        Some(d) => d,
        None => {
            return None;
        },
    };
    // the starting chunk order, walked from the end
    let mut snapshot: Vec<(i64, i64)> = Vec::new();
    let mut t: usize = 0;
    while t < disk.len()
        invariant
            0 <= t <= disk@.len(),
            snapshot@ == disk@.subrange(0, t as int),
            forall|j: int|
                0 <= j < disk@.len() ==> -1 <= (#[trigger] disk@[j]).0 && 0 <= disk@[j].1 <= 9,
        decreases disk@.len() - t,
    {
        snapshot.push(disk[t]);
        t = t + 1;
    }
    proof {
        assert(snapshot@ =~= disk@);
    }
    let mut c: usize = snapshot.len();
    while c > 0
        invariant
            0 <= c <= snapshot@.len(),
            forall|j: int|
                0 <= j < snapshot@.len() ==> -1 <= (#[trigger] snapshot@[j]).0 && 0
                    <= snapshot@[j].1 <= 9,
            forall|j: int|
                0 <= j < disk@.len() ==> -1 <= (#[trigger] disk@[j]).0 && 0 <= disk@[j].1 <= 9,
        decreases c,
    {
        c = c - 1;
        let (kind, size) = snapshot[c];
        if kind >= 0 {
            // the first gap wide enough
            let mut si: usize = 0;
            let mut found_space = false;
            while si < disk.len() && !found_space
                invariant
                    0 <= si <= disk@.len(),
                    found_space ==> si < disk@.len(),
                decreases disk@.len() - si,
                    (if found_space {
                        0int
                    } else {
                        1int
                    }),
            {
                let (ck, cs) = disk[si];
                if ck == -1 && cs >= size {
                    found_space = true;
                } else {
                    si = si + 1;
                }
            }
            if found_space {
                // the file's current chunk, somewhere after the gap
                let mut fi: usize = si + 1;
                let mut found_file = false;
                while fi < disk.len() && !found_file
                    invariant
                        si + 1 <= fi <= disk@.len() || fi == si + 1,
                        fi <= disk@.len(),
                        found_file ==> fi < disk@.len(),
                    decreases disk@.len() - fi,
                        (if found_file {
                            0int
                        } else {
                            1int
                        }),
                {
                    if disk[fi].0 == kind {
                        found_file = true;
                    } else {
                        fi = fi + 1;
                    }
                }
                if found_file {
                    let space = disk[si].1;
                    disk.set(fi, (-1, size));
                    disk.set(si, (kind, size));
                    if space > size {
                        disk.insert(si + 1, (-1, space - size));
                        proof {
                            assert forall|j: int|
                                0 <= j < disk@.len() implies -1 <= (#[trigger] disk@[j]).0 && 0
                                <= disk@[j].1 <= 9 by {}
                        }
                    }
                }
            }
        }
    }
    // expand the chunks back to blocks and checksum
    let mut compact: Vec<i64> = Vec::new();
    let mut j: usize = 0;
    while j < disk.len()
        invariant
            0 <= j <= disk@.len(),
            forall|t2: int|
                0 <= t2 < disk@.len() ==> -1 <= (#[trigger] disk@[t2]).0 && 0 <= disk@[t2].1 <= 9,
            forall|t2: int| 0 <= t2 < compact@.len() ==> -1 <= (#[trigger] compact@[t2]),
        decreases disk@.len() - j,
    {
        let (kind, size) = disk[j];
        let mut t2: i64 = 0;
        while t2 < size
            invariant
                kind >= -1,
                0 <= t2 <= size <= 9,
                forall|u: int| 0 <= u < compact@.len() ==> -1 <= (#[trigger] compact@[u]),
            decreases size - t2,
        {
            compact.push(kind);
            t2 = t2 + 1;
        }
        j = j + 1;
    }
    checksum(&compact)
}

} // verus!
