//! The dataflow evaluator: a worklist of gates, evaluated as their inputs
//! resolve, in the order the list of gates gives them.
//!
//! The gates need not come topologically sorted.  A gate whose inputs are
//! unresolved is re-enqueued; a stall counter bounds the number of
//! consecutive unsuccessful pops (twice the number of gates), so a cyclic or
//! dangling dependency ends in `Unresolvable` instead of looping forever.
//! Every wire is written at most once; a swap that makes two gates write the
//! same effective output ends in `OutputCollision`.
//!
//! `evaluate` returns exactly `eval_spec`, and on success the returned
//! assignment is consistent: every gate's (swapped) output wire holds the
//! operator applied to its input wires, primary inputs keep their given
//! values, and nothing else is assigned.

use std::collections::VecDeque;

use vstd::prelude::*;

use crate::circuit::{Circuit, CircuitError, Gate, Op};

verus! {

/// The boolean operators.
pub open spec fn op_apply(op: Op, a: bool, b: bool) -> bool {
    match op {
        Op::And => a && b,
        Op::Or => a || b,
        Op::Xor => a != b,
    }
}

/// Executes a gate operator.
pub fn apply_op(op: Op, a: bool, b: bool) -> (r: bool)
    ensures
        r == op_apply(op, a, b),
{
    match op {
        Op::And => a && b,
        Op::Or => a || b,
        Op::Xor => a != b,
    }
}

/// A well-formed swap map: a wire substitution applied to gate outputs.
pub open spec fn swap_wf(swap: Seq<usize>, n: int) -> bool {
    &&& swap.len() == n
    &&& forall|w: int| 0 <= w < n ==> (#[trigger] swap[w]) < n
}

/// A well-formed input assignment: wire ids in range, no wire twice.
pub open spec fn inputs_wf(inputs: Seq<(usize, bool)>, n: int) -> bool {
    &&& forall|k: int| 0 <= k < inputs.len() ==> (#[trigger] inputs[k]).0 < n
    &&& forall|j: int, k: int|
        0 <= j < k < inputs.len() ==> (#[trigger] inputs[j]).0 != (#[trigger] inputs[k]).0
}

/// The wire assignment holding exactly the primary inputs.
pub open spec fn init_values(n: nat, inputs: Seq<(usize, bool)>) -> Seq<Option<bool>>
    decreases inputs.len(),
{
    if inputs.len() == 0 {
        Seq::new(n, |i: int| None)
    } else {
        let prev = init_values(n, inputs.drop_last());
        let (w, v) = inputs.last();
        if w < n {
            prev.update(w as int, Some(v))
        } else {
            prev
        }
    }
}

pub proof fn lemma_init_values(n: nat, inputs: Seq<(usize, bool)>)
    requires
        inputs_wf(inputs, n as int),
    ensures
        init_values(n, inputs).len() == n,
        forall|k: int|
            0 <= k < inputs.len() ==> init_values(n, inputs)[(#[trigger] inputs[k]).0 as int]
                == Some(inputs[k].1),
        forall|w: int|
            0 <= w < n && init_values(n, inputs)[w] is Some ==> exists|k: int|
                0 <= k < inputs.len() && (#[trigger] inputs[k]).0 == w,
    decreases inputs.len(),
{
    if inputs.len() > 0 {
        let pre = inputs.drop_last();
        assert(forall|k: int| 0 <= k < pre.len() ==> pre[k] == inputs[k]);
        lemma_init_values(n, pre);
        let m = init_values(n, inputs);
        let (w, v) = inputs.last();
        assert forall|k: int| 0 <= k < inputs.len() implies m[(#[trigger] inputs[k]).0 as int]
            == Some(inputs[k].1) by {
            if k < inputs.len() - 1 {
                assert(inputs[k].0 != inputs[inputs.len() - 1].0);
                assert(pre[k] == inputs[k]);
            }
        }
        assert forall|x: int| 0 <= x < n && m[x] is Some implies exists|k: int|
            0 <= k < inputs.len() && (#[trigger] inputs[k]).0 == x by {
            if x == w as int {
                assert(inputs[inputs.len() - 1].0 == x);
            } else {
                assert(init_values(n, pre)[x] is Some);
                let k = choose|k: int| 0 <= k < pre.len() && (#[trigger] pre[k]).0 == x;
                assert(inputs[k].0 == x);
            }
        }
    }
}

/// Wire `w` is assigned by the given primary-input list.
pub open spec fn is_assigned(inputs: Seq<(usize, bool)>, w: int) -> bool {
    exists|k: int| 0 <= k < inputs.len() && (#[trigger] inputs[k]).0 == w
}

/// A gate's equation holds in assignment `m` (outputs read through `swap`).
pub open spec fn gate_holds(g: Gate, swap: Seq<usize>, m: Seq<Option<bool>>) -> bool {
    let o = swap[g.out as int] as int;
    &&& m[g.i1 as int] is Some
    &&& m[g.i2 as int] is Some
    &&& m[o] == Some(op_apply(g.op, m[g.i1 as int]->Some_0, m[g.i2 as int]->Some_0))
}

/// One worklist state step after another: the evaluator, as a function.
pub open spec fn eval_loop(
    c: Circuit,
    swap: Seq<usize>,
    queue: Seq<usize>,
    vals: Seq<Option<bool>>,
    stall: int,
    bound: int,
) -> Result<Seq<Option<bool>>, CircuitError>
    decreases queue.len(), bound - stall,
{
    if queue.len() == 0 {
        Ok(vals)
    } else {
        let gi = queue[0] as int;
        if !(0 <= gi < c.gates@.len()) {
            Err(CircuitError::Unresolvable)
        } else {
            let g = c.gates@[gi];
            if vals[g.i1 as int] is Some && vals[g.i2 as int] is Some {
                let o = swap[g.out as int] as int;
                if vals[o] is Some {
                    Err(CircuitError::OutputCollision)
                } else {
                    let v = op_apply(g.op, vals[g.i1 as int]->Some_0, vals[g.i2 as int]->Some_0);
                    eval_loop(c, swap, queue.skip(1), vals.update(o, Some(v)), 0, bound)
                }
            } else {
                if stall >= bound {
                    Err(CircuitError::Unresolvable)
                } else {
                    eval_loop(c, swap, queue.skip(1).push(queue[0]), vals, stall + 1, bound)
                }
            }
        }
    }
}

/// What `evaluate` returns: the worklist run over all gates in list order,
/// starting from the primary inputs, with a stall bound of twice the
/// number of gates.
pub open spec fn eval_spec(c: Circuit, inputs: Seq<(usize, bool)>, swap: Seq<usize>) -> Result<
    Seq<Option<bool>>,
    CircuitError,
> {
    eval_loop(
        c,
        swap,
        Seq::new(c.gates@.len(), |i: int| i as usize),
        init_values(c.names@.len(), inputs),
        0,
        2 * c.gates@.len() as int,
    )
}

/// Evaluates the circuit under the given primary inputs, with gate outputs
/// relabeled through `swap`.
///
/// Returns exactly `eval_spec(*c, inputs@, swap@)`.  On success the returned
/// assignment gives every gate's (swapped) output wire the operator applied
/// to its input wires, keeps every primary input at its given value, and
/// assigns nothing else.
pub fn evaluate(c: &Circuit, inputs: &Vec<(usize, bool)>, swap: &Vec<usize>) -> (r: Result<
    Vec<Option<bool>>,
    CircuitError,
>)
    requires
        c.wf(),
        swap_wf(swap@, c.n()),
        inputs_wf(inputs@, c.n()),
    ensures
        match r {
            Ok(m) => eval_spec(*c, inputs@, swap@) == Ok::<_, CircuitError>(m@),
            Err(e) => eval_spec(*c, inputs@, swap@) == Err::<Seq<Option<bool>>, _>(e),
        },
        r matches Ok(m) ==> {
            &&& m@.len() == c.n()
            &&& forall|k: int|
                0 <= k < inputs@.len() ==> m@[(#[trigger] inputs@[k]).0 as int] == Some(
                    inputs@[k].1,
                )
            &&& forall|gi: int| 0 <= gi < c.gates@.len() ==> gate_holds(#[trigger] c.gates@[gi], swap@, m@)
            &&& forall|w: int|
                0 <= w < c.n() && (#[trigger] m@[w]) is Some ==> is_assigned(inputs@, w) || exists|
                    gi: int,
                |
                    0 <= gi < c.gates@.len() && swap@[(#[trigger] c.gates@[gi]).out as int] == w
        },
{
    let n = c.names.len();
    // the primary-input assignment
    let mut vals: Vec<Option<bool>> = Vec::new();
    let mut t: usize = 0;
    while t < n
        invariant
            0 <= t <= n,
            vals@ =~= Seq::new(t as nat, |i: int| None::<bool>),
        decreases n - t,
    {
        vals.push(None);
        t = t + 1;
    }
    proof {
        assert(vals@ =~= init_values(n as nat, inputs@.take(0)));
    }
    let mut k: usize = 0;
    while k < inputs.len()
        invariant
            0 <= k <= inputs@.len(),
            inputs_wf(inputs@, n as int),
            vals@.len() == n,
            vals@ == init_values(n as nat, inputs@.take(k as int)),
        decreases inputs@.len() - k,
    {
        let (w, v) = inputs[k];
        proof {
            let tk = inputs@.take(k + 1);
            assert(tk.drop_last() =~= inputs@.take(k as int));
            assert(tk.last() == inputs@[k as int]);
            assert(inputs@[k as int].0 < n);
        }
        vals.set(w, Some(v));
        k = k + 1;
    }
    proof {
        assert(inputs@.take(inputs@.len() as int) =~= inputs@);
        lemma_init_values(n as nat, inputs@);
    }
    // the worklist, in gate-list order
    let mut queue: VecDeque<usize> = VecDeque::new();
    let mut gi: usize = 0;
    while gi < c.gates.len()
        invariant
            0 <= gi <= c.gates@.len(),
            queue@ =~= Seq::new(gi as nat, |i: int| i as usize),
        decreases c.gates@.len() - gi,
    {
        queue.push_back(gi);
        proof {
            assert(queue@ =~= Seq::new((gi + 1) as nat, |i: int| i as usize));
        }
        gi = gi + 1;
    }
    proof {
        assert(queue@ =~= Seq::new(c.gates@.len(), |i: int| i as usize));
    }
    let mut stall: u128 = 0;
    let bound: u128 = 2 * (c.gates.len() as u128);
    proof {
        assert(eval_loop(*c, swap@, queue@, vals@, stall as int, bound as int) == eval_spec(
            *c,
            inputs@,
            swap@,
        ));
        assert forall|g: usize| g < c.gates@.len() implies #[trigger] queue@.contains(g) by {
            assert(queue@[g as int] == g);
        }
    }
    while queue.len() > 0
        invariant
            c.wf(),
            swap_wf(swap@, c.n()),
            inputs_wf(inputs@, c.n()),
            vals@.len() == c.n(),
            0 <= stall <= bound,
            bound == 2 * c.gates@.len(),
            forall|j: int| 0 <= j < queue@.len() ==> (#[trigger] queue@[j]) < c.gates@.len(),
            forall|j: int, j2: int|
                0 <= j < j2 < queue@.len() ==> (#[trigger] queue@[j]) != (#[trigger] queue@[j2]),
            forall|g: usize|
                g < c.gates@.len() && !queue@.contains(g) ==> gate_holds(
                    #[trigger] c.gates@[g as int],
                    swap@,
                    vals@,
                ),
            forall|k2: int|
                0 <= k2 < inputs@.len() ==> vals@[(#[trigger] inputs@[k2]).0 as int] == Some(
                    inputs@[k2].1,
                ),
            forall|w: int|
                0 <= w < c.n() && (#[trigger] vals@[w]) is Some ==> is_assigned(inputs@, w)
                    || exists|g: int|
                    0 <= g < c.gates@.len() && swap@[(#[trigger] c.gates@[g]).out as int] == w,
            eval_loop(*c, swap@, queue@, vals@, stall as int, bound as int) == eval_spec(
                *c,
                inputs@,
                swap@,
            ),
        decreases queue@.len(), bound - stall,
    {
        let ghost queue0 = queue@;
        let ghost vals0 = vals@;
        let gidx = queue.pop_front().unwrap();
        proof {
            assert(queue@ =~= queue0.skip(1));
            assert(queue0[0] == gidx);
        }
        let g = c.gates[gidx];
        let ready = match (vals[g.i1], vals[g.i2]) {
            (Some(_), Some(_)) => true,
            _ => false,
        };
        if ready {
            let v1 = match vals[g.i1] {
                Some(v) => v,
                None => false,
            };
            let v2 = match vals[g.i2] {
                Some(v) => v,
                None => false,
            };
            let o = swap[g.out];
            if vals[o].is_some() {
                proof {
                    assert(eval_loop(*c, swap@, queue0, vals0, stall as int, bound as int)
                        == Err::<Seq<Option<bool>>, CircuitError>(CircuitError::OutputCollision));
                }
                return Err(CircuitError::OutputCollision);
            }
            let v = apply_op(g.op, v1, v2);
            vals.set(o, Some(v));
            stall = 0;
            proof {
                assert(vals@ =~= vals0.update(o as int, Some(v)));
                // previously satisfied gates still hold: only a `None` slot changed
                assert forall|g2: usize|
                    g2 < c.gates@.len() && !queue@.contains(g2) implies gate_holds(
                    #[trigger] c.gates@[g2 as int],
                    swap@,
                    vals@,
                ) by {
                    if g2 == gidx {
                        assert(vals@[swap@[g.out as int] as int] == Some(v));
                        assert(vals@[g.i1 as int] == vals0[g.i1 as int]);
                        assert(vals@[g.i2 as int] == vals0[g.i2 as int]);
                    } else {
                        if !queue0.contains(g2) {
                            assert(gate_holds(c.gates@[g2 as int], swap@, vals0));
                            let gg = c.gates@[g2 as int];
                            assert(vals0[swap@[gg.out as int] as int] is Some);
                            assert(vals@[gg.i1 as int] == vals0[gg.i1 as int]);
                            assert(vals@[gg.i2 as int] == vals0[gg.i2 as int]);
                            assert(vals@[swap@[gg.out as int] as int] == vals0[swap@[gg.out as int] as int]);
                        } else {
                            let j = choose|j: int| 0 <= j < queue0.len() && queue0[j] == g2;
                            assert(j > 0);
                            assert(queue@[j - 1] == queue0[j]);
                            assert(queue@.contains(g2));
                        }
                    }
                }
                // the new value is a gate output
                assert forall|w: int|
                    0 <= w < c.n() && (#[trigger] vals@[w]) is Some implies is_assigned(inputs@, w)
                    || exists|g2: int|
                    0 <= g2 < c.gates@.len() && swap@[(#[trigger] c.gates@[g2]).out as int]
                        == w by {
                    if w == o as int {
                        assert(0 <= gidx < c.gates@.len() && swap@[(c.gates@[
                        gidx as int]).out as int] == w);
                    } else {
                        assert(vals0[w] is Some);
                    }
                }
                // the spec takes the same step
                assert(eval_loop(*c, swap@, queue0, vals0, stall as int, bound as int)
                    == eval_loop(*c, swap@, queue@, vals@, 0, bound as int));
            }
        } else {
            if stall >= bound {
                proof {
                    assert(eval_loop(*c, swap@, queue0, vals0, stall as int, bound as int)
                        == Err::<Seq<Option<bool>>, CircuitError>(CircuitError::Unresolvable));
                }
                return Err(CircuitError::Unresolvable);
            }
            queue.push_back(gidx);
            stall = stall + 1;
            proof {
                assert(queue@ =~= queue0.skip(1).push(queue0[0]));
                assert forall|j: int, j2: int|
                    0 <= j < j2 < queue@.len() implies (#[trigger] queue@[j]) != (
                #[trigger] queue@[j2]) by {
                    if j2 == queue@.len() - 1 {
                        assert(queue@[j] == queue0[j + 1]);
                        assert(queue@[j2] == queue0[0]);
                    } else {
                        assert(queue@[j] == queue0[j + 1]);
                        assert(queue@[j2] == queue0[j2 + 1]);
                    }
                }
                assert forall|g2: usize|
                    g2 < c.gates@.len() && !queue@.contains(g2) implies gate_holds(
                    #[trigger] c.gates@[g2 as int],
                    swap@,
                    vals@,
                ) by {
                    if !queue0.contains(g2) {
                    } else {
                        let j = choose|j: int| 0 <= j < queue0.len() && queue0[j] == g2;
                        if j == 0 {
                            assert(queue@[queue@.len() - 1] == queue0[0]);
                            assert(queue@.contains(g2));
                        } else {
                            assert(queue@[j - 1] == queue0[j]);
                            assert(queue@.contains(g2));
                        }
                    }
                }
                assert(eval_loop(*c, swap@, queue0, vals0, (stall - 1) as int, bound as int)
                    == eval_loop(*c, swap@, queue@, vals@, stall as int, bound as int));
            }
        }
    }
    proof {
        assert(eval_loop(*c, swap@, queue@, vals@, stall as int, bound as int) == Ok::<
            _,
            CircuitError,
        >(vals@));
        assert forall|g2: int| 0 <= g2 < c.gates@.len() implies gate_holds(
            #[trigger] c.gates@[g2],
            swap@,
            vals@,
        ) by {
            assert(queue@.len() == 0);
            assert(!queue@.contains(g2 as usize));
            assert(c.gates@[g2] == c.gates@[(g2 as usize) as int]);
        }
    }
    Ok(vals)
}

/// Wire `w` is some gate's effective (swapped) output.
pub open spec fn produced(c: Circuit, swap: Seq<usize>, w: int) -> bool {
    exists|gi: int|
        0 <= gi < c.gates@.len() && swap[(#[trigger] c.gates@[gi]).out as int] == w
}

/// Every wire a gate reads is a primary input or some gate's output.
pub open spec fn wired(c: Circuit, inputs: Seq<(usize, bool)>, swap: Seq<usize>) -> bool {
    forall|gi: int|
        0 <= gi < c.gates@.len() ==> {
            let g = #[trigger] c.gates@[gi];
            &&& (is_assigned(inputs, g.i1 as int) || produced(c, swap, g.i1 as int))
            &&& (is_assigned(inputs, g.i2 as int) || produced(c, swap, g.i2 as int))
        }
}

/// `rank` witnesses acyclicity: along every gate, the output wire's rank
/// lies strictly above both input wires' ranks.
pub open spec fn acyclic_by(c: Circuit, swap: Seq<usize>, rank: Seq<int>) -> bool {
    &&& rank.len() == c.n()
    &&& forall|w: int| 0 <= w < c.n() ==> (#[trigger] rank[w]) >= 0
    &&& forall|gi: int|
        0 <= gi < c.gates@.len() ==> {
            let g = #[trigger] c.gates@[gi];
            rank[swap[g.out as int] as int] > rank[g.i1 as int] && rank[swap[g.out as int] as int]
                > rank[g.i2 as int]
        }
}

/// No gate writes a primary input, and no two gates write the same wire,
/// even after the swap.
pub open spec fn outputs_clear(c: Circuit, inputs: Seq<(usize, bool)>, swap: Seq<usize>) -> bool {
    &&& forall|gi: int|
        0 <= gi < c.gates@.len() ==> !is_assigned(
            inputs,
            swap[(#[trigger] c.gates@[gi]).out as int] as int,
        )
    &&& forall|gi: int, gj: int|
        0 <= gi < gj < c.gates@.len() ==> swap[(#[trigger] c.gates@[gi]).out as int] != swap[(
        #[trigger] c.gates@[gj]).out as int]
}

/// A gate whose input wires are both assigned.
pub open spec fn ready(c: Circuit, vals: Seq<Option<bool>>, gi: int) -> bool {
    &&& vals[c.gates@[gi].i1 as int] is Some
    &&& vals[c.gates@[gi].i2 as int] is Some
}

/// In an acyclic, fully wired circuit, some still-queued gate is ready: take
/// one whose output rank is least among the queued gates.
proof fn lemma_exists_ready(
    c: Circuit,
    inputs: Seq<(usize, bool)>,
    swap: Seq<usize>,
    rank: Seq<int>,
    queue: Seq<usize>,
    vals: Seq<Option<bool>>,
    r: int,
)
    requires
        c.wf(),
        swap_wf(swap, c.n()),
        wired(c, inputs, swap),
        acyclic_by(c, swap, rank),
        vals.len() == c.n(),
        forall|j: int| 0 <= j < queue.len() ==> (#[trigger] queue[j]) < c.gates@.len(),
        // assigned wires: the inputs, and the outputs of dequeued gates
        forall|w: int|
            0 <= w < c.n() ==> ((#[trigger] vals[w]) is Some <==> is_assigned(inputs, w) || exists|
                gi: int,
            |
                0 <= gi < c.gates@.len() && !queue.contains(gi as usize) && swap[(
                #[trigger] c.gates@[gi]).out as int] == w),
        exists|j: int|
            0 <= j < queue.len() && rank[swap[c.gates@[(#[trigger] queue[j]) as int].out as int] as int]
                <= r,
        r >= 0,
    ensures
        exists|j: int| 0 <= j < queue.len() && ready(c, vals, (#[trigger] queue[j]) as int),
    decreases r,
{
    crate::util::lemma_vec_len_bound(c.gates);
    let j0 = choose|j: int|
        0 <= j < queue.len() && rank[swap[c.gates@[(#[trigger] queue[j]) as int].out as int] as int]
            <= r;
    let gi = queue[j0] as int;
    let g = c.gates@[gi];
    if ready(c, vals, gi) {
        assert(0 <= j0 < queue.len() && ready(c, vals, (queue[j0]) as int));
    } else {
        // some input wire of the chosen gate is unassigned; it must be the
        // output of a gate still in the queue, of strictly smaller rank
        let w: int = if vals[g.i1 as int] is None {
            g.i1 as int
        } else {
            g.i2 as int
        };
        assert(vals[w] is None);
        assert(0 <= w < c.n());
        assert(!is_assigned(inputs, w) && !(exists|gj: int|
            0 <= gj < c.gates@.len() && !queue.contains(gj as usize) && swap[(
            #[trigger] c.gates@[gj]).out as int] == w));
        assert(produced(c, swap, w));
        let h = choose|gj: int|
            0 <= gj < c.gates@.len() && swap[(#[trigger] c.gates@[gj]).out as int] == w;
        assert(queue.contains(h as usize));
        let jh = choose|j: int| 0 <= j < queue.len() && queue[j] == h as usize;
        assert(rank[w] < rank[swap[g.out as int] as int]);
        assert(rank[swap[c.gates@[(queue[jh]) as int].out as int] as int] <= rank[w] + 0);
        assert(0 <= jh < queue.len() && rank[swap[c.gates@[(#[trigger] queue[jh]) as int].out as int] as int]
            <= rank[w]);
        lemma_exists_ready(c, inputs, swap, rank, queue, vals, rank[w]);
    }
}

/// The worklist run of an acyclic, fully wired circuit with disjoint
/// effective outputs never stalls out or collides.
#[verifier::rlimit(100)]
proof fn lemma_loop_total(
    c: Circuit,
    inputs: Seq<(usize, bool)>,
    swap: Seq<usize>,
    rank: Seq<int>,
    queue: Seq<usize>,
    vals: Seq<Option<bool>>,
    stall: int,
)
    requires
        c.wf(),
        swap_wf(swap, c.n()),
        inputs_wf(inputs, c.n()),
        wired(c, inputs, swap),
        acyclic_by(c, swap, rank),
        outputs_clear(c, inputs, swap),
        vals.len() == c.n(),
        forall|j: int| 0 <= j < queue.len() ==> (#[trigger] queue[j]) < c.gates@.len(),
        forall|j: int, j2: int|
            0 <= j < j2 < queue.len() ==> (#[trigger] queue[j]) != (#[trigger] queue[j2]),
        forall|w: int|
            0 <= w < c.n() ==> ((#[trigger] vals[w]) is Some <==> is_assigned(inputs, w) || exists|
                gi: int,
            |
                0 <= gi < c.gates@.len() && !queue.contains(gi as usize) && swap[(
                #[trigger] c.gates@[gi]).out as int] == w),
        0 <= stall,
        queue.len() > 0 ==> exists|j: int|
            0 <= j < queue.len() && ready(c, vals, (#[trigger] queue[j]) as int) && stall + j < 2
                * c.gates@.len(),
    ensures
        eval_loop(c, swap, queue, vals, stall, 2 * c.gates@.len() as int) is Ok,
    decreases queue.len(), 2 * c.gates@.len() - stall,
{
    crate::util::lemma_vec_len_bound(c.gates);
    let bound = 2 * c.gates@.len() as int;
    if queue.len() > 0 {
        let gi = queue[0] as int;
        let g = c.gates@[gi];
        let jr = choose|j: int|
            0 <= j < queue.len() && ready(c, vals, (#[trigger] queue[j]) as int) && stall + j
                < bound;
        if vals[g.i1 as int] is Some && vals[g.i2 as int] is Some {
            // the head gate fires; its effective output is still unassigned
            let o = swap[g.out as int] as int;
            assert(!is_assigned(inputs, o));
            assert forall|gj: int|
                0 <= gj < c.gates@.len() && !queue.contains(gj as usize) implies swap[(
            #[trigger] c.gates@[gj]).out as int] != o by {
                if swap[c.gates@[gj].out as int] == o {
                    assert(gj != gi);
                    if gj < gi {
                        assert(swap[c.gates@[gj].out as int] != swap[c.gates@[gi].out as int]);
                    } else {
                        assert(swap[c.gates@[gi].out as int] != swap[c.gates@[gj].out as int]);
                    }
                }
            }
            assert(vals[o] is None);
            let v = op_apply(g.op, vals[g.i1 as int]->Some_0, vals[g.i2 as int]->Some_0);
            let vals2 = vals.update(o, Some(v));
            let queue2 = queue.skip(1);
            assert forall|w: int|
                0 <= w < c.n() implies ((#[trigger] vals2[w]) is Some <==> is_assigned(inputs, w)
                || exists|gj: int|
                0 <= gj < c.gates@.len() && !queue2.contains(gj as usize) && swap[(
                #[trigger] c.gates@[gj]).out as int] == w) by {
                if w == o {
                    assert(!queue2.contains(gi as usize)) by {
                        if queue2.contains(gi as usize) {
                            let j = choose|j: int|
                                0 <= j < queue2.len() && queue2[j] == gi as usize;
                            assert(queue[j + 1] == queue[0]);
                        }
                    }
                    assert(0 <= gi < c.gates@.len() && !queue2.contains(gi as usize) && swap[(
                    c.gates@[gi]).out as int] == w);
                } else {
                    if vals[w] is Some {
                        if !is_assigned(inputs, w) {
                            let gj = choose|gj: int|
                                0 <= gj < c.gates@.len() && !queue.contains(gj as usize) && swap[(
                                #[trigger] c.gates@[gj]).out as int] == w;
                            assert(!queue2.contains(gj as usize)) by {
                                if queue2.contains(gj as usize) {
                                    let j = choose|j: int|
                                        0 <= j < queue2.len() && queue2[j] == gj as usize;
                                    assert(queue[j + 1] == gj as usize);
                                    assert(queue.contains(gj as usize));
                                }
                            }
                        }
                    } else {
                        if exists|gj: int|
                            0 <= gj < c.gates@.len() && !queue2.contains(gj as usize) && swap[(
                            #[trigger] c.gates@[gj]).out as int] == w {
                            let gj = choose|gj: int|
                                0 <= gj < c.gates@.len() && !queue2.contains(gj as usize) && swap[(
                                #[trigger] c.gates@[gj]).out as int] == w;
                            assert(gj != gi);
                            assert(!queue.contains(gj as usize)) by {
                                if queue.contains(gj as usize) {
                                    let j = choose|j: int|
                                        0 <= j < queue.len() && queue[j] == gj as usize;
                                    assert(j != 0);
                                    assert(queue2[j - 1] == queue[j]);
                                    assert(queue2.contains(gj as usize));
                                }
                            }
                        }
                    }
                }
            }
            if queue2.len() > 0 {
                // some queued gate is ready under the grown assignment
                assert forall|j: int|
                    0 <= j < queue2.len() implies (#[trigger] queue2[j]) < c.gates@.len() by {
                    assert(queue2[j] == queue[j + 1]);
                }
                assert(exists|j: int|
                    0 <= j < queue2.len() && rank[swap[c.gates@[(#[trigger] queue2[j]) as int].out as int] as int]
                        <= rank[swap[c.gates@[queue2[0] as int].out as int] as int]);
                lemma_exists_ready(
                    c,
                    inputs,
                    swap,
                    rank,
                    queue2,
                    vals2,
                    rank[swap[c.gates@[queue2[0] as int].out as int] as int],
                );
                let j2 = choose|j: int|
                    0 <= j < queue2.len() && ready(c, vals2, (#[trigger] queue2[j]) as int);
                assert(0 + j2 < bound) by {
                    assert(queue2.len() <= c.gates@.len()) by {
                        lemma_distinct_bound(c, queue2);
                    }
                }
            }
            lemma_loop_total(c, inputs, swap, rank, queue2, vals2, 0);
        } else {
            // the head gate is not ready: it is re-enqueued, and the ready
            // gate moves one place forward
            assert(jr != 0);
            let queue2 = queue.skip(1).push(queue[0]);
            assert(stall < bound);
            assert forall|j: int|
                0 <= j < queue2.len() implies (#[trigger] queue2[j]) < c.gates@.len() by {
                if j < queue.len() - 1 {
                    assert(queue2[j] == queue[j + 1]);
                } else {
                    assert(queue2[j] == queue[0]);
                }
            }
            assert forall|j: int, j2: int|
                0 <= j < j2 < queue2.len() implies (#[trigger] queue2[j]) != (
            #[trigger] queue2[j2]) by {
                if j2 == queue2.len() - 1 {
                    assert(queue2[j] == queue[j + 1]);
                    assert(queue2[j2] == queue[0]);
                } else {
                    assert(queue2[j] == queue[j + 1]);
                    assert(queue2[j2] == queue[j2 + 1]);
                }
            }
            assert forall|w: int|
                0 <= w < c.n() implies ((#[trigger] vals[w]) is Some <==> is_assigned(inputs, w)
                || exists|gj: int|
                0 <= gj < c.gates@.len() && !queue2.contains(gj as usize) && swap[(
                #[trigger] c.gates@[gj]).out as int] == w) by {
                assert forall|gj: int|
                    0 <= gj < c.gates@.len() implies (#[trigger] queue.contains(gj as usize)
                        <==> queue2.contains(gj as usize)) by {
                    if queue.contains(gj as usize) {
                        let j = choose|j: int| 0 <= j < queue.len() && queue[j] == gj as usize;
                        if j == 0 {
                            assert(queue2[queue2.len() - 1] == queue[0]);
                        } else {
                            assert(queue2[j - 1] == queue[j]);
                        }
                        assert(queue2.contains(gj as usize));
                    }
                    if queue2.contains(gj as usize) {
                        let j = choose|j: int| 0 <= j < queue2.len() && queue2[j] == gj as usize;
                        if j == queue2.len() - 1 {
                            assert(queue2[j] == queue[0]);
                        } else {
                            assert(queue2[j] == queue[j + 1]);
                        }
                        assert(queue.contains(gj as usize));
                    }
                }
            }
            assert(queue2[jr - 1] == queue[jr]);
            assert(0 <= jr - 1 < queue2.len() && ready(c, vals, (queue2[jr - 1]) as int) && (stall
                + 1) + (jr - 1) < bound);
            lemma_loop_total(c, inputs, swap, rank, queue2, vals, stall + 1);
        }
    }
}

/// Distinct gate indices cannot outnumber the gates.
proof fn lemma_distinct_bound(c: Circuit, queue: Seq<usize>)
    requires
        forall|j: int| 0 <= j < queue.len() ==> (#[trigger] queue[j]) < c.gates@.len(),
        forall|j: int, j2: int|
            0 <= j < j2 < queue.len() ==> (#[trigger] queue[j]) != (#[trigger] queue[j2]),
    ensures
        queue.len() <= c.gates@.len(),
{
    let s = queue.map_values(|x: usize| x);
    if queue.len() > c.gates@.len() {
        crate::eval::lemma_pigeonhole(queue, c.gates@.len() as int);
    }
}

/// A sequence of distinct numbers below `m` has at most `m` entries.
proof fn lemma_pigeonhole(queue: Seq<usize>, m: int)
    requires
        m >= 0,
        forall|j: int| 0 <= j < queue.len() ==> (#[trigger] queue[j]) < m,
        forall|j: int, j2: int|
            0 <= j < j2 < queue.len() ==> (#[trigger] queue[j]) != (#[trigger] queue[j2]),
    ensures
        queue.len() <= m,
    decreases m,
{
    if queue.len() > m {
        if m == 0 {
            assert(queue[0] < 0);
        } else if exists|j: int| 0 <= j < queue.len() && (#[trigger] queue[j]) == m - 1 {
            // drop the one entry holding the top value and recurse
            let j = choose|j: int| 0 <= j < queue.len() && (#[trigger] queue[j]) == m - 1;
            let q2 = queue.remove(j);
            assert forall|t: int| 0 <= t < q2.len() implies (#[trigger] q2[t]) < m - 1 by {
                if t < j {
                    assert(q2[t] == queue[t]);
                    if queue[t] == m - 1 {
                        assert(queue[t] == queue[j]);
                    }
                } else {
                    assert(q2[t] == queue[t + 1]);
                    if queue[t + 1] == m - 1 {
                        assert(queue[t + 1] == queue[j]);
                    }
                }
            }
            assert forall|t: int, t2: int|
                0 <= t < t2 < q2.len() implies (#[trigger] q2[t]) != (#[trigger] q2[t2]) by {
                let a = if t < j {
                    t
                } else {
                    t + 1
                };
                let b = if t2 < j {
                    t2
                } else {
                    t2 + 1
                };
                assert(q2[t] == queue[a] && q2[t2] == queue[b]);
            }
            lemma_pigeonhole(q2, m - 1);
        } else {
            assert forall|t: int| 0 <= t < queue.len() implies (#[trigger] queue[t]) < m - 1 by {}
            lemma_pigeonhole(queue, m - 1);
        }
    }
}

/// Round trip: an acyclic circuit whose gates read only primary inputs or
/// other gates' outputs, and whose effective outputs are pairwise distinct
/// and distinct from the inputs, always evaluates successfully -- and the
/// returned assignment then gives a value to every wire reachable from the
/// inputs, every gate's output among them (see `evaluate`).
pub proof fn lemma_acyclic_evaluates(
    c: Circuit,
    inputs: Seq<(usize, bool)>,
    swap: Seq<usize>,
    rank: Seq<int>,
)
    requires
        c.wf(),
        swap_wf(swap, c.n()),
        inputs_wf(inputs, c.n()),
        wired(c, inputs, swap),
        acyclic_by(c, swap, rank),
        outputs_clear(c, inputs, swap),
    ensures
        eval_spec(c, inputs, swap) is Ok,
{
    crate::util::lemma_vec_len_bound(c.gates);
    let queue = Seq::new(c.gates@.len(), |i: int| i as usize);
    let vals = init_values(c.names@.len(), inputs);
    lemma_init_values(c.names@.len(), inputs);
    assert forall|j: int, j2: int|
        0 <= j < j2 < queue.len() implies (#[trigger] queue[j]) != (#[trigger] queue[j2]) by {
        assert(queue[j] == j as usize && queue[j2] == j2 as usize);
    }
    assert forall|w: int|
        0 <= w < c.n() implies ((#[trigger] vals[w]) is Some <==> is_assigned(inputs, w) || exists|
            gi: int,
        |
            0 <= gi < c.gates@.len() && !queue.contains(gi as usize) && swap[(
            #[trigger] c.gates@[gi]).out as int] == w) by {
        assert forall|gi: int| 0 <= gi < c.gates@.len() implies #[trigger] queue.contains(
            gi as usize,
        ) by {
            assert(queue[gi] == gi as usize);
        }
        if is_assigned(inputs, w) {
            let k = choose|k: int| 0 <= k < inputs.len() && (#[trigger] inputs[k]).0 == w;
            assert(vals[inputs[k].0 as int] == Some(inputs[k].1));
        }
    }
    if queue.len() > 0 {
        lemma_exists_ready(
            c,
            inputs,
            swap,
            rank,
            queue,
            vals,
            rank[swap[c.gates@[queue[0] as int].out as int] as int],
        );
        let j = choose|j: int| 0 <= j < queue.len() && ready(c, vals, (#[trigger] queue[j]) as int);
        assert(0 + j < 2 * c.gates@.len());
    }
    lemma_loop_total(c, inputs, swap, rank, queue, vals, 0);
}

} // verus!
