//! The swap-repair search: a bounded combinatorial search over output-wire
//! swaps that minimizes, and ideally eliminates, the oracle's error count.
//!
//! The search validates the bare circuit for a baseline, tries every
//! unordered pair of suspect wires alone and keeps the beneficial ones
//! (strictly fewer errors than the baseline), then validates combinations of
//! exactly `budget` pairwise-disjoint beneficial pairs.  A candidate on which
//! the evaluator fails merely disqualifies that candidate; only a
//! disconnected base circuit aborts the search.

use vstd::prelude::*;

use crate::circuit::{Circuit, CircuitError};
use crate::eval::swap_wf;
use crate::oracle::{linked_any, suspects_ok, validate, validate_spec, z_suspects_complete};

verus! {

/// The outcome of the repair search.
#[derive(Debug)]
pub enum RepairResult {
    /// A swap set achieving zero oracle errors (empty if the circuit was
    /// already clean).
    Found(Vec<(usize, usize)>),
    /// The best swap set seen, with its remaining error count.
    Improved(Vec<(usize, usize)>, usize),
    /// No candidate swap improved on the baseline.
    NoImprovement,
}

/// The identity wire substitution.
pub open spec fn ident_swap(n: int) -> Seq<usize> {
    Seq::new(n as nat, |i: int| i as usize)
}

/// A set of swaps: wires in range, and no wire appears twice.
pub open spec fn pairs_wf(n: int, pairs: Seq<(usize, usize)>) -> bool {
    &&& forall|k: int|
        0 <= k < pairs.len() ==> (#[trigger] pairs[k]).0 < n && pairs[k].1 < n && pairs[k].0
            != pairs[k].1
    &&& forall|j: int, k: int|
        0 <= j < k < pairs.len() ==> (#[trigger] pairs[j]).0 != (#[trigger] pairs[k]).0
            && pairs[j].0 != pairs[k].1 && pairs[j].1 != pairs[k].0 && pairs[j].1 != pairs[k].1
}

/// The wire substitution exchanging the two members of every pair.
pub open spec fn swap_of_pairs(n: int, pairs: Seq<(usize, usize)>) -> Seq<usize>
    decreases pairs.len(),
{
    if pairs.len() == 0 {
        ident_swap(n)
    } else {
        let prev = swap_of_pairs(n, pairs.drop_last());
        let (a, b) = pairs.last();
        prev.update(a as int, b).update(b as int, a)
    }
}

pub proof fn lemma_swap_of_pairs_wf(n: int, pairs: Seq<(usize, usize)>)
    requires
        0 <= n <= usize::MAX,
        pairs_wf(n, pairs),
    ensures
        swap_wf(swap_of_pairs(n, pairs), n),
    decreases pairs.len(),
{
    if pairs.len() == 0 {
        assert forall|w: int| 0 <= w < n implies (#[trigger] ident_swap(n)[w]) < n by {
            assert(ident_swap(n)[w] == w as usize);
        }
    }
    if pairs.len() > 0 {
        assert(forall|k: int|
            0 <= k < pairs.drop_last().len() ==> pairs.drop_last()[k] == pairs[k]);
        lemma_swap_of_pairs_wf(n, pairs.drop_last());
        let prev = swap_of_pairs(n, pairs.drop_last());
        let (a, b) = pairs.last();
        assert(a < n && b < n);
        let cur = swap_of_pairs(n, pairs);
        assert(cur == prev.update(a as int, b).update(b as int, a));
        assert(cur.len() == n);
        assert forall|w: int| 0 <= w < n implies (#[trigger] cur[w]) < n by {
            if w == b as int {
                assert(cur[w] == a);
            } else if w == a as int {
                assert(cur[w] == b);
            } else {
                assert(cur[w] == prev[w]);
            }
        }
    }
}

/// Builds the substitution vector of a swap set.
pub fn build_swap(n: usize, pairs: &Vec<(usize, usize)>) -> (r: Vec<usize>)
    requires
        pairs_wf(n as int, pairs@),
    ensures
        r@ == swap_of_pairs(n as int, pairs@),
        swap_wf(r@, n as int),
{
    let mut r: Vec<usize> = Vec::new();
    let mut t: usize = 0;
    while t < n
        invariant
            0 <= t <= n,
            r@ =~= Seq::new(t as nat, |i: int| i as usize),
        decreases n - t,
    {
        r.push(t);
        t = t + 1;
    }
    proof {
        assert(r@ =~= ident_swap(n as int));
        assert(pairs@.take(0) =~= Seq::<(usize, usize)>::empty());
        assert(swap_of_pairs(n as int, pairs@.take(0)) =~= ident_swap(n as int));
    }
    let mut k: usize = 0;
    while k < pairs.len()
        invariant
            pairs_wf(n as int, pairs@),
            0 <= k <= pairs@.len(),
            r@.len() == n,
            r@ == swap_of_pairs(n as int, pairs@.take(k as int)),
        decreases pairs@.len() - k,
    {
        let (a, b) = pairs[k];
        r.set(a, b);
        r.set(b, a);
        proof {
            let tk = pairs@.take(k + 1);
            assert(tk.drop_last() =~= pairs@.take(k as int));
            assert(tk.last() == pairs@[k as int]);
            assert(tk.len() == k + 1);
        }
        k = k + 1;
    }
    proof {
        assert(pairs@.take(pairs@.len() as int) =~= pairs@);
        lemma_swap_of_pairs_wf(n as int, pairs@);
    }
    r
}

/// A copy of a swap set.
fn copy_pairs(v: &Vec<(usize, usize)>) -> (r: Vec<(usize, usize)>)
    ensures
        r@ == v@,
{
    let mut r: Vec<(usize, usize)> = Vec::new();
    let mut k: usize = 0;
    while k < v.len()
        invariant
            0 <= k <= v@.len(),
            r@ == v@.subrange(0, k as int),
        decreases v@.len() - k,
    {
        r.push(v[k]);
        k = k + 1;
    }
    proof {
        assert(v@.subrange(0, v@.len() as int) =~= v@);
    }
    r
}

/// The recorded best candidate is real: it validates to its error count,
/// which improves on the baseline.
pub open spec fn best_ok(
    c: Circuit,
    digits: int,
    base: int,
    best: Option<(Vec<(usize, usize)>, usize)>,
) -> bool {
    match best {
        Some(p) => pairs_wf(c.n(), p.0@) && validate_spec(c, swap_of_pairs(c.n(), p.0@), digits)
            == Ok::<int, CircuitError>(p.1 as int) && 0 < p.1 < base,
        None => true,
    }
}

/// The search's outcome, at the specification level.
pub enum RepairOutcome {
    Found(Seq<(usize, usize)>),
    Improved(Seq<(usize, usize)>, int),
    NoImprovement,
}

/// The view of an outcome the search returns.
pub open spec fn outcome_of(r: RepairResult) -> RepairOutcome {
    match r {
        RepairResult::Found(s) => RepairOutcome::Found(s@),
        RepairResult::Improved(s, e) => RepairOutcome::Improved(s@, e as int),
        RepairResult::NoImprovement => RepairOutcome::NoImprovement,
    }
}

/// Neither member of the pair occurs in the current combination.
pub open spec fn pair_free(current: Seq<(usize, usize)>, a: usize, b: usize) -> bool {
    forall|k: int|
        0 <= k < current.len() ==> (#[trigger] current[k]).0 != a && current[k].1 != a
            && current[k].0 != b && current[k].1 != b
}

/// The beneficial pairs: every unordered suspect pair, scanned in order,
/// kept when validating with it alone counts strictly fewer errors than the
/// baseline.
pub open spec fn benef_from(
    c: Circuit,
    digits: int,
    suspects: Seq<usize>,
    base: int,
    i: int,
    j: int,
) -> Seq<(usize, usize)>
    decreases suspects.len() - i, suspects.len() + 1 - j,
{
    if i < 0 || i >= suspects.len() || j < i + 1 {
        Seq::empty()
    } else if j >= suspects.len() {
        benef_from(c, digits, suspects, base, i + 1, i + 2)
    } else {
        let pair = (suspects[i], suspects[j]);
        let keep = match validate_spec(c, swap_of_pairs(c.n(), seq![pair]), digits) {
            Ok(e) => e < base,
            Err(_) => false,
        };
        (if keep {
            seq![pair]
        } else {
            Seq::empty()
        }) + benef_from(c, digits, suspects, base, i, j + 1)
    }
}

/// The combination scan: extend the current combination with disjoint
/// beneficial pairs from `start` on; a full combination is validated, a
/// zero-error one is returned at once, and the best improving one is kept.
pub open spec fn combos_from(
    c: Circuit,
    digits: int,
    budget: int,
    benef: Seq<(usize, usize)>,
    start: int,
    current: Seq<(usize, usize)>,
    best: Option<(Seq<(usize, usize)>, int)>,
    base: int,
) -> (Option<Seq<(usize, usize)>>, Option<(Seq<(usize, usize)>, int)>)
    decreases budget - current.len(), benef.len() - start,
{
    if current.len() >= budget {
        match validate_spec(c, swap_of_pairs(c.n(), current), digits) {
            Ok(e) => if e == 0 {
                (Some(current), best)
            } else {
                let better = match best {
                    Some(p) => e < p.1,
                    None => true,
                };
                if better && e < base {
                    (None, Some((current, e)))
                } else {
                    (None, best)
                }
            },
            Err(_) => (None, best),
        }
    } else if start < 0 || start >= benef.len() {
        (None, best)
    } else {
        let (a, b) = benef[start];
        if pair_free(current, a, b) {
            let r1 = combos_from(c, digits, budget, benef, start + 1, current.push((a, b)), best, base);
            match r1.0 {
                Some(s) => (Some(s), r1.1),
                None => combos_from(c, digits, budget, benef, start + 1, current, r1.1, base),
            }
        } else {
            combos_from(c, digits, budget, benef, start + 1, current, best, base)
        }
    }
}

/// What the whole search computes from a given suspect list.
pub open spec fn repair_spec(c: Circuit, digits: int, budget: int, suspects: Seq<usize>) -> RepairOutcome {
    match validate_spec(c, ident_swap(c.n()), digits) {
        Err(_) => RepairOutcome::NoImprovement,
        Ok(base) => if base == 0 {
            RepairOutcome::Found(Seq::empty())
        } else {
            let benef = benef_from(c, digits, suspects, base, 0, 1);
            if benef.len() == 0 || budget <= 0 {
                RepairOutcome::NoImprovement
            } else {
                let sr = combos_from(c, digits, budget, benef, 0, Seq::empty(), None, base);
                match sr.0 {
                    Some(s) => RepairOutcome::Found(s),
                    None => match sr.1 {
                        Some(p) => RepairOutcome::Improved(p.0, p.1),
                        None => RepairOutcome::NoImprovement,
                    },
                }
            }
        },
    }
}

/// The suspect list the search draws its pairs from: what `validate` reports
/// of the bare circuit.
pub open spec fn base_suspects(c: Circuit, digits: int, sus: Seq<usize>) -> bool {
    &&& suspects_ok(c, sus)
    &&& forall|k: int|
        0 <= k < sus.len() ==> linked_any(c, ident_swap(c.n()), digits, #[trigger] sus[k])
    &&& forall|i: int|
        0 <= i < digits ==> #[trigger] z_suspects_complete(c, ident_swap(c.n()), i, digits, sus)
    &&& (validate_spec(c, ident_swap(c.n()), digits) == Ok::<int, CircuitError>(0) ==> sus.len()
        == 0)
}

/// The view of the best candidate seen.
pub open spec fn best_view(best: Option<(Vec<(usize, usize)>, usize)>) -> Option<
    (Seq<(usize, usize)>, int),
> {
    match best {
        Some(p) => Some((p.0@, p.1 as int)),
        None => None,
    }
}

/// Extends `current` with disjoint beneficial pairs from `start` on, up to
/// exactly `budget` pairs, validating each complete combination.  Returns the
/// first zero-error combination found, and records the best imperfect one.
fn search_combos(
    c: &Circuit,
    digits: usize,
    budget: usize,
    beneficial: &Vec<(usize, usize)>,
    start: usize,
    current: &mut Vec<(usize, usize)>,
    used: &mut Vec<bool>,
    best: &mut Option<(Vec<(usize, usize)>, usize)>,
    base: usize,
) -> (r: Option<Vec<(usize, usize)>>)
    requires
        c.wf(),
        digits <= 63,
        forall|k: int|
            0 <= k < beneficial@.len() ==> (#[trigger] beneficial@[k]).0 < c.n()
                && beneficial@[k].1 < c.n() && beneficial@[k].0 != beneficial@[k].1,
        old(used)@.len() == c.n(),
        pairs_wf(c.n(), old(current)@),
        old(current)@.len() <= budget,
        forall|w: int|
            0 <= w < c.n() ==> ((#[trigger] old(used)@[w]) <==> exists|k: int|
                0 <= k < old(current)@.len() && ((#[trigger] old(current)@[k]).0 == w || old(
                    current,
                )@[k].1 == w)),
        best_ok(*c, digits as int, base as int, *old(best)),
    ensures
        final(current)@ == old(current)@,
        final(used)@ == old(used)@,
        best_ok(*c, digits as int, base as int, *final(best)),
        match r {
            Some(s) => pairs_wf(c.n(), s@) && s@.len() == budget && validate_spec(
                *c,
                swap_of_pairs(c.n(), s@),
                digits as int,
            ) == Ok::<int, CircuitError>(0),
            None => true,
        },
        // exactly the specified scan
        ({
            let sr = combos_from(
                *c,
                digits as int,
                budget as int,
                beneficial@,
                start as int,
                old(current)@,
                best_view(*old(best)),
                base as int,
            );
            &&& (match r {
                Some(s) => sr.0 == Some(s@),
                None => sr.0 is None,
            })
            &&& best_view(*final(best)) == sr.1
        }),
    decreases budget - old(current)@.len(), beneficial@.len() - start,
{
    let ghost sr = combos_from(
        *c,
        digits as int,
        budget as int,
        beneficial@,
        start as int,
        old(current)@,
        best_view(*old(best)),
        base as int,
    );
    if current.len() == budget {
        let sw = build_swap(c.names.len(), current);
        match validate(c, &sw, digits) {
            Ok((_, e)) => {
                if e == 0 {
                    let found = copy_pairs(current);
                    proof {
                        assert(sr.0 == Some(found@) && sr.1 == best_view(*best));
                    }
                    return Some(found);
                }
                let better = match best {
                    Some(p) => e < p.1,
                    None => true,
                };
                if better && e < base {
                    let kept = copy_pairs(current);
                    *best = Some((kept, e));
                    proof {
                        assert(sr.0 is None && sr.1 == best_view(*best));
                    }
                } else {
                    proof {
                        assert(sr.0 is None && sr.1 == best_view(*best));
                    }
                }
            },
            Err(_) => {
                proof {
                    assert(sr.0 is None && sr.1 == best_view(*best));
                }
            },
        }
        return None;
    }
    if start >= beneficial.len() {
        proof {
            assert(sr.0 is None && sr.1 == best_view(*best));
        }
        return None;
    }
    let (a, b) = beneficial[start];
    let ghost free = pair_free(current@, a, b);
    proof {
        if free {
            if used@[a as int] {
                let k = choose|k: int|
                    0 <= k < current@.len() && ((#[trigger] current@[k]).0 == a as int
                        || current@[k].1 == a as int);
            }
            if used@[b as int] {
                let k = choose|k: int|
                    0 <= k < current@.len() && ((#[trigger] current@[k]).0 == b as int
                        || current@[k].1 == b as int);
            }
            assert(!used@[a as int] && !used@[b as int]);
        } else {
            let k = choose|k: int|
                0 <= k < current@.len() && !((#[trigger] current@[k]).0 != a && current@[k].1 != a
                    && current@[k].0 != b && current@[k].1 != b);
            assert(used@[a as int] || used@[b as int]);
        }
    }
    if !used[a] && !used[b] {
        let ghost used0 = used@;
        let ghost current0 = current@;
        used.set(a, true);
        used.set(b, true);
        current.push((a, b));
        proof {
            assert(current@ =~= current0.push((a, b)));
            assert forall|j: int, k: int|
                0 <= j < k < current@.len() implies (#[trigger] current@[j]).0 != (
            #[trigger] current@[k]).0 && current@[j].0 != current@[k].1 && current@[j].1 != (
            current@[k]).0 && current@[j].1 != current@[k].1 by {
                if k == current@.len() - 1 {
                    assert(current@[j] == current0[j]);
                    assert(used0[(current0[j]).0 as int] && used0[(current0[j]).1 as int]);
                }
            }
            assert forall|w: int| 0 <= w < c.n() implies ((#[trigger] used@[w]) <==> exists|k: int|
                0 <= k < current@.len() && ((#[trigger] current@[k]).0 == w || current@[k].1
                    == w)) by {
                if w == a as int || w == b as int {
                    assert(current@[current@.len() - 1].0 == a && current@[current@.len() - 1].1
                        == b);
                } else {
                    if exists|k: int|
                        0 <= k < current@.len() && ((#[trigger] current@[k]).0 == w || current@[k].1
                            == w) {
                        let k = choose|k: int|
                            0 <= k < current@.len() && ((#[trigger] current@[k]).0 == w
                                || current@[k].1 == w);
                        assert(k < current0.len());
                        assert(current0[k] == current@[k]);
                        assert(0 <= k < current0.len() && ((#[trigger] current0[k]).0 == w
                            || current0[k].1 == w));
                    }
                    if used0[w] {
                        let k = choose|k: int|
                            0 <= k < current0.len() && ((#[trigger] current0[k]).0 == w
                                || current0[k].1 == w);
                        assert(current@[k] == current0[k]);
                        assert(0 <= k < current@.len() && ((#[trigger] current@[k]).0 == w
                            || current@[k].1 == w));
                    }
                }
            }
        }
        let ghost r1 = combos_from(
            *c,
            digits as int,
            budget as int,
            beneficial@,
            start + 1,
            current0.push((a, b)),
            best_view(*best),
            base as int,
        );
        let found = search_combos(c, digits, budget, beneficial, start + 1, current, used, best, base);
        let _ = current.pop();
        used.set(a, false);
        used.set(b, false);
        proof {
            assert(current@ =~= current0);
            assert(used@ =~= used0);
        }
        match found {
            Some(s) => {
                proof {
                    assert(sr.0 == Some(s@) && sr.1 == best_view(*best));
                }
                return Some(s);
            },
            None => {},
        }
        let r = search_combos(c, digits, budget, beneficial, start + 1, current, used, best, base);
        proof {
            match &r {
                Some(s) => {
                    assert(sr.0 == Some(s@) && sr.1 == best_view(*best));
                },
                None => {
                    assert(sr.0 is None && sr.1 == best_view(*best));
                },
            }
        }
        return r;
    }
    search_combos(c, digits, budget, beneficial, start + 1, current, used, best, base)
}

/// Searches for a set of at most `budget` output-wire swaps repairing the
/// circuit.
///
/// The outcome is exactly `repair_spec` over the suspect list that `validate`
/// reports of the bare circuit (`base_suspects`): the baseline oracle run,
/// then every unordered suspect pair alone, then every combination of exactly
/// `budget` pairwise-disjoint beneficial pairs -- the first zero-error
/// combination wins, and the best improving one is kept.  `Found` carries a
/// swap set on which `validate` counts zero errors (empty when the bare
/// circuit is already clean, otherwise of exactly `budget` pairs);
/// `Improved` carries the best imperfect swap set seen and its count,
/// strictly below the baseline; `NoImprovement` means the baseline was
/// nonzero and the scan found nothing.  A failure of the bare circuit's own
/// validation is propagated.
pub fn find_repair(c: &Circuit, digits: usize, budget: usize) -> (r: Result<
    RepairResult,
    CircuitError,
>)
    requires
        c.wf(),
        digits <= 63,
    ensures
        match r {
            Ok(RepairResult::Found(s)) => pairs_wf(c.n(), s@) && (s@.len() == budget || s@.len()
                == 0) && validate_spec(*c, swap_of_pairs(c.n(), s@), digits as int) == Ok::<
                int,
                CircuitError,
            >(0),
            Ok(RepairResult::Improved(s, e)) => pairs_wf(c.n(), s@) && validate_spec(
                *c,
                swap_of_pairs(c.n(), s@),
                digits as int,
            ) == Ok::<int, CircuitError>(e as int) && e > 0 && (validate_spec(
                *c,
                ident_swap(c.n()),
                digits as int,
            ) matches Ok(b) && e < b),
            Ok(RepairResult::NoImprovement) => validate_spec(
                *c,
                ident_swap(c.n()),
                digits as int,
            ) matches Ok(b) && b > 0,
            Err(e) => validate_spec(*c, ident_swap(c.n()), digits as int) == Err::<
                int,
                CircuitError,
            >(e),
        },
        r matches Ok(rr) ==> exists|sus: Seq<usize>|
            #[trigger] base_suspects(*c, digits as int, sus) && outcome_of(rr) == repair_spec(
                *c,
                digits as int,
                budget as int,
                sus,
            ),
{
    let n = c.names.len();
    let empty: Vec<(usize, usize)> = Vec::new();
    let ident = build_swap(n, &empty);
    proof {
        assert(ident@ =~= ident_swap(c.n()));
    }
    let (suspects, base) = match validate(c, &ident, digits) {
        Ok(p) => p,
        Err(e) => {
            return Err(e);
        },
    };
    proof {
        assert(base_suspects(*c, digits as int, suspects@));
    }
    if base == 0 {
        let none: Vec<(usize, usize)> = Vec::new();
        proof {
            assert(swap_of_pairs(c.n(), none@) =~= ident_swap(c.n()));
            assert(none@ =~= Seq::<(usize, usize)>::empty());
            assert(outcome_of(RepairResult::Found(none)) == repair_spec(
                *c,
                digits as int,
                budget as int,
                suspects@,
            ));
        }
        return Ok(RepairResult::Found(none));
    }
    // every unordered pair of suspects, kept when it beats the baseline alone
    let ghost benef_full = benef_from(*c, digits as int, suspects@, base as int, 0, 1);
    let mut beneficial: Vec<(usize, usize)> = Vec::new();
    let mut i: usize = 0;
    proof {
        assert(benef_full =~= beneficial@ + benef_from(
            *c,
            digits as int,
            suspects@,
            base as int,
            0,
            1,
        ));
    }
    while i < suspects.len()
        invariant
            c.wf(),
            digits <= 63,
            n as int == c.n(),
            suspects_ok(*c, suspects@),
            benef_full == benef_from(*c, digits as int, suspects@, base as int, 0, 1),
            0 <= i <= suspects@.len(),
            benef_full == beneficial@ + benef_from(
                *c,
                digits as int,
                suspects@,
                base as int,
                i as int,
                i + 1,
            ),
            forall|k: int|
                0 <= k < beneficial@.len() ==> (#[trigger] beneficial@[k]).0 < c.n()
                    && beneficial@[k].1 < c.n() && beneficial@[k].0 != beneficial@[k].1,
        decreases suspects@.len() - i,
    {
        let mut j: usize = i + 1;
        while j < suspects.len()
            invariant
                c.wf(),
                digits <= 63,
                n as int == c.n(),
                suspects_ok(*c, suspects@),
                benef_full == benef_from(*c, digits as int, suspects@, base as int, 0, 1),
                i < suspects@.len(),
                i + 1 <= j <= suspects@.len(),
                benef_full == beneficial@ + benef_from(
                    *c,
                    digits as int,
                    suspects@,
                    base as int,
                    i as int,
                    j as int,
                ),
                forall|k: int|
                    0 <= k < beneficial@.len() ==> (#[trigger] beneficial@[k]).0 < c.n()
                        && beneficial@[k].1 < c.n() && beneficial@[k].0 != beneficial@[k].1,
            decreases suspects@.len() - j,
        {
            let a = suspects[i];
            let b = suspects[j];
            let mut pair: Vec<(usize, usize)> = Vec::new();
            pair.push((a, b));
            proof {
                assert(pair@ =~= seq![(a, b)]);
                assert(suspects@[i as int] != suspects@[j as int]);
                assert(pairs_wf(n as int, pair@));
            }
            let sw = build_swap(n, &pair);
            let ghost ben0 = beneficial@;
            let mut kept = false;
            match validate(c, &sw, digits) {
                Ok((_, e)) => {
                    if e < base {
                        beneficial.push((a, b));
                        kept = true;
                    }
                },
                Err(_) => {},
            }
            proof {
                // one step of the specified pair scan
                let rem1 = benef_from(*c, digits as int, suspects@, base as int, i as int, j + 1);
                assert(benef_from(*c, digits as int, suspects@, base as int, i as int, j as int)
                    == (if kept {
                    seq![(a, b)]
                } else {
                    Seq::<(usize, usize)>::empty()
                }) + rem1);
                if kept {
                    assert(beneficial@ =~= ben0.push((a, b)));
                    assert(ben0 + (seq![(a, b)] + rem1) =~= beneficial@ + rem1);
                } else {
                    assert(ben0 + (Seq::<(usize, usize)>::empty() + rem1) =~= beneficial@ + rem1);
                }
            }
            j = j + 1;
        }
        proof {
            assert(benef_from(
                *c,
                digits as int,
                suspects@,
                base as int,
                i as int,
                suspects@.len() as int,
            ) == benef_from(*c, digits as int, suspects@, base as int, i + 1, i + 2));
        }
        i = i + 1;
    }
    proof {
        assert(benef_full =~= beneficial@ + benef_from(
            *c,
            digits as int,
            suspects@,
            base as int,
            suspects@.len() as int,
            suspects@.len() as int + 1,
        ));
        assert(benef_full =~= beneficial@);
    }
    if beneficial.len() == 0 || budget == 0 {
        proof {
            assert(outcome_of(RepairResult::NoImprovement) == repair_spec(
                *c,
                digits as int,
                budget as int,
                suspects@,
            ));
        }
        return Ok(RepairResult::NoImprovement);
    }
    let mut used: Vec<bool> = Vec::new();
    let mut t: usize = 0;
    while t < n
        invariant
            0 <= t <= n,
            used@.len() == t,
            forall|w: int| 0 <= w < t ==> !(#[trigger] used@[w]),
        decreases n - t,
    {
        used.push(false);
        t = t + 1;
    }
    let mut current: Vec<(usize, usize)> = Vec::new();
    let mut best: Option<(Vec<(usize, usize)>, usize)> = None;
    let ghost sr = combos_from(
        *c,
        digits as int,
        budget as int,
        beneficial@,
        0,
        current@,
        best_view(best),
        base as int,
    );
    let found = search_combos(c, digits, budget, &beneficial, 0, &mut current, &mut used, &mut best, base);
    proof {
        assert(current@ =~= Seq::<(usize, usize)>::empty());
    }
    match found {
        Some(s) => {
            proof {
                assert(outcome_of(RepairResult::Found(s)) == repair_spec(
                    *c,
                    digits as int,
                    budget as int,
                    suspects@,
                ));
            }
            Ok(RepairResult::Found(s))
        },
        None => match best {
            Some((s, e)) => {
                proof {
                    assert(sr.1 == Some((s@, e as int)));
                    assert(outcome_of(RepairResult::Improved(s, e)) == repair_spec(
                        *c,
                        digits as int,
                        budget as int,
                        suspects@,
                    ));
                }
                Ok(RepairResult::Improved(s, e))
            },
            None => {
                proof {
                    assert(sr.1 is None);
                    assert(outcome_of(RepairResult::NoImprovement) == repair_spec(
                        *c,
                        digits as int,
                        budget as int,
                        suspects@,
                    ));
                }
                Ok(RepairResult::NoImprovement)
            },
        },
    }
}

} // verus!
