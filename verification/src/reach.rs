//! The reachability search: breadth-first shortest path between two wires
//! through the gates (each gate's input wires point to its output wire).
//!
//! Used only for diagnostic localization.  The result is a real path in the
//! gate graph (the breadth-first order makes it a shortest one), and an empty
//! result means `to` is not reachable from `from` at all.

use std::collections::VecDeque;

use vstd::prelude::*;

use crate::circuit::Circuit;

verus! {

/// The number of true entries.
pub open spec fn count_true(s: Seq<bool>) -> int
    decreases s.len(),
{
    if s.len() == 0 {
        0
    } else {
        count_true(s.drop_last()) + if s.last() {
            1int
        } else {
            0int
        }
    }
}

pub proof fn lemma_count_true_le_len(s: Seq<bool>)
    ensures
        0 <= count_true(s) <= s.len(),
    decreases s.len(),
{
    if s.len() > 0 {
        lemma_count_true_le_len(s.drop_last());
    }
}

pub proof fn lemma_count_true_update(s: Seq<bool>, i: int)
    requires
        0 <= i < s.len(),
        !s[i],
    ensures
        count_true(s.update(i, true)) == count_true(s) + 1,
    decreases s.len(),
{
    let s2 = s.update(i, true);
    if i == s.len() - 1 {
        assert(s2.drop_last() =~= s.drop_last());
    } else {
        assert(s2.drop_last() =~= s.drop_last().update(i, true));
        lemma_count_true_update(s.drop_last(), i);
        assert(s2.last() == s.last());
    }
}

pub proof fn lemma_count_true_empty(s: Seq<bool>)
    requires
        forall|w: int| 0 <= w < s.len() ==> !(#[trigger] s[w]),
    ensures
        count_true(s) == 0,
    decreases s.len(),
{
    if s.len() > 0 {
        assert(forall|w: int| 0 <= w < s.drop_last().len() ==> s.drop_last()[w] == s[w]);
        lemma_count_true_empty(s.drop_last());
    }
}

/// There is a gate taking wire `u` and producing wire `v`.
pub open spec fn edge(c: Circuit, u: int, v: int) -> bool {
    exists|gi: int|
        0 <= gi < c.gates@.len() && ((#[trigger] c.gates@[gi]).i1 == u || c.gates@[gi].i2 == u)
            && c.gates@[gi].out == v
}

/// `p` walks the gates from `from` to `to`.
pub open spec fn is_path(c: Circuit, p: Seq<usize>, from: usize, to: usize) -> bool {
    &&& p.len() >= 1
    &&& p[0] == from
    &&& p.last() == to
    &&& forall|k: int| 0 <= k < p.len() - 1 ==> edge(c, (#[trigger] p[k]) as int, p[k + 1] as int)
}

/// `to` can be reached from `from` through gates.
pub open spec fn reaches(c: Circuit, from: usize, to: usize) -> bool {
    exists|p: Seq<usize>| is_path(c, p, from, to)
}

/// Every wire on a path is reachable from the path's start and itself
/// reaches the path's end.
pub proof fn lemma_path_through(c: Circuit, p: Seq<usize>, from: usize, to: usize, k: int)
    requires
        is_path(c, p, from, to),
        0 <= k < p.len(),
    ensures
        reaches(c, from, p[k]),
        reaches(c, p[k], to),
{
    let pre = p.subrange(0, k + 1);
    assert forall|t: int| 0 <= t < pre.len() - 1 implies edge(
        c,
        (#[trigger] pre[t]) as int,
        pre[t + 1] as int,
    ) by {
        assert(pre[t] == p[t] && pre[t + 1] == p[t + 1]);
    }
    assert(pre[0] == p[0] && pre.last() == p[k]);
    assert(is_path(c, pre, from, p[k]));
    let suf = p.skip(k);
    assert forall|t: int| 0 <= t < suf.len() - 1 implies edge(
        c,
        (#[trigger] suf[t]) as int,
        suf[t + 1] as int,
    ) by {
        assert(suf[t] == p[t + k] && suf[t + 1] == p[t + k + 1]);
    }
    assert(suf[0] == p[k] && suf.last() == p.last());
    assert(is_path(c, suf, p[k], to));
}

/// The visited set is closed under gate edges.
pub open spec fn closed(c: Circuit, visited: Seq<bool>) -> bool {
    forall|u: usize, v: usize|
        u < c.n() && v < c.n() && visited[u as int] && #[trigger] edge(c, u as int, v as int)
            ==> visited[v as int]
}

/// On a path, every vertex is in range (gates only mention wires in range,
/// and the first vertex is given in range).
proof fn lemma_path_in_range(c: Circuit, p: Seq<usize>, k: int)
    requires
        c.wf(),
        p.len() >= 1,
        p[0] < c.n(),
        forall|j: int| 0 <= j < p.len() - 1 ==> edge(c, (#[trigger] p[j]) as int, p[j + 1] as int),
        0 <= k < p.len(),
    ensures
        p[k] < c.n(),
    decreases k,
{
    if k > 0 {
        lemma_path_in_range(c, p, k - 1);
        assert(edge(c, p[k - 1] as int, p[k] as int));
        let gi = choose|gi: int|
            0 <= gi < c.gates@.len() && ((#[trigger] c.gates@[gi]).i1 == p[k - 1] as int
                || c.gates@[gi].i2 == p[k - 1] as int) && c.gates@[gi].out == p[k] as int;
        assert(c.gates@[gi].out < c.n());
    }
}

/// Every vertex on a path starting inside an edge-closed visited set is
/// itself visited.
proof fn lemma_closed_path(c: Circuit, visited: Seq<bool>, p: Seq<usize>, k: int)
    requires
        c.wf(),
        visited.len() == c.n(),
        closed(c, visited),
        p.len() >= 1,
        p[0] < c.n() && visited[p[0] as int],
        forall|j: int| 0 <= j < p.len() - 1 ==> edge(c, (#[trigger] p[j]) as int, p[j + 1] as int),
        0 <= k < p.len(),
    ensures
        p[k] < c.n(),
        visited[p[k] as int],
    decreases k,
{
    lemma_path_in_range(c, p, k);
    if k > 0 {
        lemma_closed_path(c, visited, p, k - 1);
        assert(edge(c, p[k - 1] as int, p[k] as int));
    }
}

/// On a breadth-first frontier, a path either stays short and inside the
/// visited region, or is already as long as the frontier's level.
proof fn lemma_path_floor(
    c: Circuit,
    visited: Seq<bool>,
    dist: Seq<usize>,
    queue: Seq<usize>,
    dmin: int,
    p: Seq<usize>,
    k: int,
    from: usize,
)
    requires
        c.wf(),
        visited.len() == c.n(),
        dist.len() == c.n(),
        queue.len() > 0,
        dmin == dist[queue[0] as int],
        forall|j: int|
            0 <= j < queue.len() ==> (#[trigger] queue[j]) < c.n() && dmin <= dist[queue[j] as int],
        forall|u: usize, v: usize|
            u < c.n() && v < c.n() && visited[u as int] && !queue.contains(u) && #[trigger] edge(
                c,
                u as int,
                v as int,
            ) ==> visited[v as int] && dist[v as int] <= dist[u as int] + 1,
        p.len() >= 1,
        p[0] == from,
        from < c.n(),
        visited[from as int],
        dist[from as int] == 0,
        forall|j: int| 0 <= j < p.len() - 1 ==> edge(c, (#[trigger] p[j]) as int, p[j + 1] as int),
        0 <= k < p.len(),
    ensures
        (p[k] < c.n() && visited[p[k] as int] && dist[p[k] as int] <= k) || k >= dmin,
    decreases k,
{
    lemma_path_in_range(c, p, k);
    if k > 0 {
        lemma_path_floor(c, visited, dist, queue, dmin, p, k - 1, from);
        lemma_path_in_range(c, p, k - 1);
        if p[k - 1] < c.n() && visited[p[k - 1] as int] && dist[p[k - 1] as int] <= k - 1 {
            if queue.contains(p[k - 1]) {
                let j = choose|j: int| 0 <= j < queue.len() && queue[j] == p[k - 1];
                assert(dmin <= dist[p[k - 1] as int]);
            } else {
                assert(edge(c, p[k - 1] as int, p[k] as int));
            }
        }
    }
}

/// Breadth-first shortest path from `from` to `to` through the gates.
/// Returns an empty sequence exactly when no path exists.
pub fn shortest_path(c: &Circuit, from: usize, to: usize) -> (r: Vec<usize>)
    requires
        c.wf(),
        from < c.n(),
        to < c.n(),
    ensures
        r@.len() > 0 ==> is_path(*c, r@, from, to),
        r@.len() > 0 ==> forall|k: int| 0 <= k < r@.len() ==> (#[trigger] r@[k]) < c.n(),
        r@.len() == 0 ==> !reaches(*c, from, to),
        // breadth-first: no path is shorter than the returned one
        r@.len() > 0 ==> forall|p: Seq<usize>|
            #[trigger] is_path(*c, p, from, to) ==> p.len() >= r@.len(),
{
    let n = c.names.len();
    let mut visited: Vec<bool> = Vec::new();
    let mut parent: Vec<usize> = Vec::new();
    let mut dist: Vec<usize> = Vec::new();
    let mut t: usize = 0;
    while t < n
        invariant
            0 <= t <= n,
            visited@.len() == t,
            parent@.len() == t,
            dist@.len() == t,
            forall|w: int| 0 <= w < t ==> !(#[trigger] visited@[w]),
            forall|w: int| 0 <= w < t ==> (#[trigger] dist@[w]) == 0,
        decreases n - t,
    {
        visited.push(false);
        parent.push(0);
        dist.push(0);
        t = t + 1;
    }
    let mut queue: VecDeque<usize> = VecDeque::new();
    proof {
        lemma_count_true_empty(visited@);
        lemma_count_true_update(visited@, from as int);
    }
    visited.set(from, true);
    queue.push_back(from);
    let mut visited_cnt: usize = 1;
    proof {
        lemma_count_true_le_len(visited@);
        assert(queue@[0] == from);
    }
    while queue.len() > 0
        invariant
            c.wf(),
            from < c.n(),
            to < c.n(),
            n as int == c.n(),
            visited@.len() == c.n(),
            parent@.len() == c.n(),
            dist@.len() == c.n(),
            1 <= visited_cnt <= c.n(),
            visited_cnt as int == count_true(visited@),
            visited@[from as int],
            dist@[from as int] == 0,
            forall|j: int|
                0 <= j < queue@.len() ==> (#[trigger] queue@[j]) < c.n()
                    && visited@[queue@[j] as int],
            // closed under edges, one level at a time, except at still-queued
            // vertices
            forall|u: usize, v: usize|
                u < c.n() && v < c.n() && visited@[u as int] && !queue@.contains(u) && #[trigger] edge(
                    *c,
                    u as int,
                    v as int,
                ) ==> visited@[v as int] && dist@[v as int] <= dist@[u as int] + 1,
            // the queue is sorted by distance, spans at most two levels, and
            // every dequeued vertex lies at or below the queue's level
            forall|j1: int, j2: int|
                0 <= j1 < j2 < queue@.len() ==> dist@[(#[trigger] queue@[j1]) as int] <= dist@[(
                #[trigger] queue@[j2]) as int],
            queue@.len() > 0 ==> dist@[queue@.last() as int] <= dist@[queue@[0] as int] + 1,
            forall|w: usize, j: int|
                #![trigger dist@[w as int], queue@[j]]
                w < c.n() && visited@[w as int] && !queue@.contains(w) && 0 <= j < queue@.len()
                    ==> dist@[w as int] <= dist@[queue@[j] as int],
            // parent pointers walk back to `from`, one edge and one level at a time
            forall|v: int|
                0 <= v < c.n() && visited@[v] && v != from ==> (#[trigger] parent@[v]) < c.n()
                    && visited@[parent@[v] as int] && edge(*c, parent@[v] as int, v)
                    && dist@[parent@[v] as int] == dist@[v] - 1,
            forall|v: int| 0 <= v < c.n() && visited@[v] ==> (#[trigger] dist@[v]) < visited_cnt,
            visited@[to as int] ==> queue@.contains(to),
        decreases c.n() - visited_cnt + queue@.len(),
    {
        let ghost queue0 = queue@;
        let u = queue.pop_front().unwrap();
        proof {
            assert(queue@ =~= queue0.skip(1));
            assert(queue0[0] == u);
            if u != to && visited@[to as int] {
                let j = choose|j: int| 0 <= j < queue0.len() && queue0[j] == to;
                assert(j != 0);
                assert(queue@[j - 1] == to);
                assert(queue@.contains(to));
            }
        }
        if u == to {
            // walk the parent pointers back to `from`, then reverse
            let ghost queue0pre = queue0;
            let mut rev: Vec<usize> = Vec::new();
            let mut cur: usize = to;
            rev.push(cur);
            while cur != from
                invariant
                    c.wf(),
                    from < c.n(),
                    to < c.n(),
                    visited@.len() == c.n(),
                    parent@.len() == c.n(),
                    dist@.len() == c.n(),
                    cur < c.n(),
                    visited@[cur as int],
                    dist@[from as int] == 0,
                    forall|v: int|
                        0 <= v < c.n() && visited@[v] && v != from ==> (#[trigger] parent@[v])
                            < c.n() && visited@[parent@[v] as int] && edge(*c, parent@[v] as int, v)
                            && dist@[parent@[v] as int] == dist@[v] - 1,
                    rev@.len() >= 1,
                    rev@[0] == to,
                    rev@.last() == cur,
                    rev@.len() == dist@[to as int] - dist@[cur as int] + 1,
                    forall|k: int|
                        0 <= k < rev@.len() - 1 ==> edge(
                            *c,
                            (#[trigger] rev@[k + 1]) as int,
                            rev@[k] as int,
                        ),
                    forall|k: int| 0 <= k < rev@.len() ==> (#[trigger] rev@[k]) < c.n(),
                decreases dist@[cur as int],
            {
                let prev = parent[cur];
                let ghost rev0 = rev@;
                rev.push(prev);
                proof {
                    assert(rev@.last() == prev);
                    assert(edge(*c, prev as int, cur as int));
                    assert(rev@[rev@.len() - 2] == cur);
                    assert forall|k: int| 0 <= k < rev@.len() - 1 implies edge(
                        *c,
                        (#[trigger] rev@[k + 1]) as int,
                        rev@[k] as int,
                    ) by {
                        if k < rev0.len() - 1 {
                            assert(rev@[k] == rev0[k]);
                            assert(rev@[k + 1] == rev0[k + 1]);
                        } else {
                            assert(rev@[k] == cur);
                            assert(rev@[k + 1] == prev);
                        }
                    }
                }
                cur = prev;
            }
            let mut path: Vec<usize> = Vec::new();
            let mut k: usize = rev.len();
            while k > 0
                invariant
                    0 <= k <= rev@.len(),
                    path@.len() == rev@.len() - k,
                    forall|j: int|
                        0 <= j < path@.len() ==> (#[trigger] path@[j]) == rev@[rev@.len() - 1 - j],
                decreases k,
            {
                k = k - 1;
                path.push(rev[k]);
            }
            proof {
                assert(path@.len() == rev@.len());
                assert(path@[0] == rev@[rev@.len() - 1]);
                assert(path@[path@.len() - 1] == rev@[0]);
                assert forall|j: int| 0 <= j < path@.len() - 1 implies edge(
                    *c,
                    (#[trigger] path@[j]) as int,
                    path@[j + 1] as int,
                ) by {
                    let m = rev@.len() - 1 - j;
                    assert(path@[j] == rev@[m]);
                    assert(path@[j + 1] == rev@[m - 1]);
                    assert(edge(*c, rev@[(m - 1) + 1] as int, rev@[m - 1] as int));
                }
                assert(is_path(*c, path@, from, to));
                assert forall|j: int| 0 <= j < path@.len() implies (#[trigger] path@[j])
                    < c.n() by {
                    assert(path@[j] == rev@[rev@.len() - 1 - j]);
                }
                assert(path@.len() == dist@[to as int] + 1);
                // breadth-first order: every other path is at least as long
                assert forall|p: Seq<usize>| #[trigger] is_path(*c, p, from, to) implies p.len()
                    >= path@.len() by {
                    lemma_path_floor(
                        *c,
                        visited@,
                        dist@,
                        queue0pre,
                        dist@[queue0pre[0] as int] as int,
                        p,
                        p.len() - 1,
                        from,
                    );
                }
            }
            return path;
        }
        let ghost du = dist@[u as int];
        proof {
            assert forall|uu: usize, v: usize|
                uu < c.n() && v < c.n() && visited@[uu as int] && !queue@.contains(uu) && uu != u
                    && #[trigger] edge(*c, uu as int, v as int) implies visited@[v as int]
                && dist@[v as int] <= dist@[uu as int] + 1 by {
                if queue0.contains(uu) {
                    let j = choose|j: int| 0 <= j < queue0.len() && queue0[j] == uu;
                    assert(j != 0);
                    assert(queue@[j - 1] == uu);
                    assert(queue@.contains(uu));
                }
            }
            // the remaining queue spans the levels `du` to `du + 1`
            assert forall|j: int| 0 <= j < queue@.len() implies du <= dist@[(
            #[trigger] queue@[j]) as int] <= du + 1 by {
                assert(queue@[j] == queue0[j + 1]);
                assert(dist@[queue0[0] as int] <= dist@[queue0[j + 1] as int]);
                if j + 1 < queue0.len() - 1 {
                    assert(dist@[queue0[j + 1] as int] <= dist@[queue0.last() as int]);
                }
            }
            assert forall|j1: int, j2: int|
                0 <= j1 < j2 < queue@.len() implies dist@[(#[trigger] queue@[j1]) as int] <= dist@[(
            #[trigger] queue@[j2]) as int] by {
                assert(queue@[j1] == queue0[j1 + 1] && queue@[j2] == queue0[j2 + 1]);
            }
            // every dequeued vertex lies at or below this level
            assert forall|w: usize|
                w < c.n() && visited@[w as int] && !queue@.contains(w) implies dist@[w as int]
                <= du by {
                if w != u {
                    if queue0.contains(w) {
                        let j = choose|j: int| 0 <= j < queue0.len() && queue0[j] == w;
                        assert(j != 0);
                        assert(queue@[j - 1] == w);
                        assert(queue@.contains(w));
                    } else {
                        assert(dist@[w as int] <= dist@[(queue0[0]) as int]);
                    }
                }
            }
        }
        // enqueue the outputs of every gate fed by `u`
        let ghost m0 = c.n() - visited_cnt + queue@.len();
        let mut gi: usize = 0;
        while gi < c.gates.len()
            invariant
                c.wf(),
                from < c.n(),
                to < c.n(),
                n as int == c.n(),
                u < c.n(),
                u != to,
                visited@.len() == c.n(),
                parent@.len() == c.n(),
                dist@.len() == c.n(),
                1 <= visited_cnt <= c.n(),
                visited_cnt as int == count_true(visited@),
                visited@[from as int],
                visited@[u as int],
                0 <= gi <= c.gates@.len(),
                c.n() - visited_cnt + queue@.len() == m0,
                dist@[from as int] == 0,
                dist@[u as int] == du,
                forall|j: int|
                    0 <= j < queue@.len() ==> (#[trigger] queue@[j]) < c.n()
                        && visited@[queue@[j] as int],
                // closed except queued vertices and `u`'s not-yet-scanned gates
                forall|uu: usize, v: usize|
                    uu < c.n() && v < c.n() && visited@[uu as int] && !queue@.contains(uu) && uu
                        != u && #[trigger] edge(*c, uu as int, v as int) ==> visited@[v as int]
                        && dist@[v as int] <= dist@[uu as int] + 1,
                // `u`'s scanned gates already have visited, one-level-deeper
                // outputs
                forall|g: int|
                    0 <= g < gi && ((#[trigger] c.gates@[g]).i1 == u || c.gates@[g].i2 == u)
                        ==> visited@[c.gates@[g].out as int] && dist@[c.gates@[g].out as int] <= du
                        + 1,
                // the queue spans the levels `du` to `du + 1`, in order
                forall|j: int|
                    0 <= j < queue@.len() ==> du <= dist@[(#[trigger] queue@[j]) as int] <= du + 1,
                forall|j1: int, j2: int|
                    0 <= j1 < j2 < queue@.len() ==> dist@[(#[trigger] queue@[j1]) as int] <= dist@[(
                    #[trigger] queue@[j2]) as int],
                forall|w: usize|
                    w < c.n() && visited@[w as int] && !queue@.contains(w) ==> dist@[w as int]
                        <= du,
                forall|v: int|
                    0 <= v < c.n() && visited@[v] && v != from ==> (#[trigger] parent@[v]) < c.n()
                        && visited@[parent@[v] as int] && edge(*c, parent@[v] as int, v)
                        && dist@[parent@[v] as int] == dist@[v] - 1,
                forall|v: int|
                    0 <= v < c.n() && visited@[v] ==> (#[trigger] dist@[v]) < visited_cnt,
                visited@[to as int] ==> queue@.contains(to),
            decreases c.gates@.len() - gi,
        {
            let g = c.gates[gi];
            if g.i1 == u || g.i2 == u {
                let v = g.out;
                if !visited[v] {
                    let ghost visited0 = visited@;
                    let ghost queue1 = queue@;
                    let ghost dist0 = dist@;
                    proof {
                        // the count stays within n: `v` is still unvisited
                        lemma_count_true_update(visited0, v as int);
                        lemma_count_true_le_len(visited0.update(v as int, true));
                    }
                    visited.set(v, true);
                    parent.set(v, u);
                    let du = dist[u];
                    dist.set(v, du + 1);
                    queue.push_back(v);
                    visited_cnt = visited_cnt + 1;
                    proof {
                        assert(visited@ =~= visited0.update(v as int, true));
                        assert(queue@ =~= queue1.push(v));
                        assert(queue@[queue@.len() - 1] == v);
                        assert(queue@.contains(v));
                        assert forall|j: int| 0 <= j < queue1.len() implies #[trigger] queue@[j]
                            == queue1[j] by {}
                        assert(edge(*c, u as int, v as int)) by {
                            assert(0 <= gi < c.gates@.len() && ((#[trigger] c.gates@[gi as int]).i1
                                == u as int || c.gates@[gi as int].i2 == u as int)
                                && c.gates@[gi as int].out == v as int);
                        }
                        assert forall|uu: usize, vv: usize|
                            uu < c.n() && vv < c.n() && visited@[uu as int] && !queue@.contains(uu)
                                && uu != u && #[trigger] edge(*c, uu as int, vv as int) implies visited@[vv as int]
                            && dist@[vv as int] <= dist@[uu as int] + 1 by {
                            if uu == v {
                                assert(queue@.contains(v));
                            } else {
                                if queue1.contains(uu) {
                                    let j = choose|j: int|
                                        0 <= j < queue1.len() && queue1[j] == uu;
                                    assert(queue@[j] == uu);
                                    assert(queue@.contains(uu));
                                } else {
                                    // an already-dequeued vertex cannot feed
                                    // the freshly discovered one
                                    assert(visited0[uu as int]);
                                    assert(vv != v) by {
                                        if vv == v {
                                            assert(visited0[v as int]);
                                        }
                                    }
                                    assert(dist@[vv as int] == dist0[vv as int]);
                                    assert(dist@[uu as int] == dist0[uu as int]);
                                }
                            }
                        }
                        assert forall|j: int| 0 <= j < queue@.len() implies du <= dist@[(
                        #[trigger] queue@[j]) as int] <= du + 1 by {
                            if j < queue1.len() {
                                assert(queue@[j] == queue1[j]);
                                assert(queue@[j] != v);
                                assert(dist@[queue@[j] as int] == dist0[queue@[j] as int]);
                            } else {
                                assert(queue@[j] == v);
                            }
                        }
                        assert forall|j1: int, j2: int|
                            0 <= j1 < j2 < queue@.len() implies dist@[(
                        #[trigger] queue@[j1]) as int] <= dist@[(#[trigger] queue@[j2]) as int] by {
                            if j2 < queue1.len() {
                                assert(queue@[j1] == queue1[j1] && queue@[j2] == queue1[j2]);
                                assert(queue@[j1] != v && queue@[j2] != v);
                            } else {
                                assert(queue@[j2] == v && dist@[v as int] == du + 1);
                                if j1 < queue1.len() {
                                    assert(queue@[j1] == queue1[j1]);
                                    assert(queue@[j1] != v);
                                }
                            }
                        }
                        assert forall|w: usize|
                            w < c.n() && visited@[w as int] && !queue@.contains(w) implies dist@[w as int]
                            <= du by {
                            if w == v {
                                assert(queue@.contains(v));
                            } else {
                                assert(visited0[w as int]);
                                if queue1.contains(w) {
                                    let j = choose|j: int|
                                        0 <= j < queue1.len() && queue1[j] == w;
                                    assert(queue@[j] == w);
                                    assert(queue@.contains(w));
                                }
                                assert(dist@[w as int] == dist0[w as int]);
                            }
                        }
                        if visited@[to as int] {
                            if v == to {
                                assert(queue@.contains(to));
                            } else {
                                assert(visited0[to as int]);
                                let j = choose|j: int| 0 <= j < queue1.len() && queue1[j] == to;
                                assert(queue@[j] == to);
                                assert(queue@.contains(to));
                            }
                        }
                    }
                }
            }
            gi = gi + 1;
        }
        proof {
            // `u`'s closure is now complete, one level at a time
            assert forall|uu: usize, v: usize|
                uu < c.n() && v < c.n() && visited@[uu as int] && !queue@.contains(uu)
                    && #[trigger] edge(*c, uu as int, v as int) implies visited@[v as int]
                && dist@[v as int] <= dist@[uu as int] + 1 by {
                if uu == u {
                    let g = choose|g: int|
                        0 <= g < c.gates@.len() && ((#[trigger] c.gates@[g]).i1 == uu as int
                            || c.gates@[g].i2 == uu as int) && c.gates@[g].out == v as int;
                    assert(visited@[c.gates@[g].out as int] && dist@[c.gates@[g].out as int] <= du
                        + 1);
                }
            }
            // every dequeued vertex lies at or below the queue's level
            assert forall|w: usize, j: int|
                #![trigger dist@[w as int], queue@[j]]
                w < c.n() && visited@[w as int] && !queue@.contains(w) && 0 <= j < queue@.len()
                    implies dist@[w as int] <= dist@[queue@[j] as int] by {
                assert(dist@[w as int] <= du);
                assert(du <= dist@[queue@[j] as int]);
            }
        }
    }
    // the queue emptied without dequeuing `to`: `to` is unreachable
    proof {
        assert(!visited@[to as int]);
        if reaches(*c, from, to) {
            let p = choose|p: Seq<usize>| is_path(*c, p, from, to);
            lemma_closed_path(*c, visited@, p, p.len() - 1);
        }
    }
    Vec::new()
}

} // verus!
