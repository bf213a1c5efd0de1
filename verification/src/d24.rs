//! The boolean-circuit puzzle: evaluate a gate network (part one) and search
//! for the output-wire swaps that turn it into a correct ripple-carry adder
//! (part two).

use vstd::prelude::*;

use crate::circuit::{circuit_matches, dup_out, parse_circuit, text_wf, Circuit, CircuitError};
use crate::codec::{encode_family, family_bit, family_ok, u64_bit};
use crate::eval::{eval_spec, evaluate};
use crate::oracle::{validate_spec, x_prefix, z_prefix};
use crate::repair::{
    base_suspects, build_swap, find_repair, ident_swap, outcome_of, pairs_wf, repair_spec,
    swap_of_pairs, RepairOutcome, RepairResult,
};
use crate::util::bytes_view;
use vstd::string::StringSliceAdditionalSpecFns;

verus! {

/// Packs the wires of `prefix` in `values` into an integer, bit `k` from the
/// wire whose numeric suffix reads `k`.
///
/// Relies on nothing beyond `encode_family`, whose contract it repeats.
pub fn make_num(c: &Circuit, prefix: u8, values: &Vec<Option<bool>>) -> (r: Result<
    u64,
    CircuitError,
>)
    requires
        values@.len() == c.n(),
    ensures
        match r {
            Ok(v) => family_ok(*c, prefix) && forall|b: int|
                0 <= b < 64 ==> #[trigger] u64_bit(v, b) == family_bit(*c, values@, prefix, b),
            Err(e) => e == CircuitError::Format && !family_ok(*c, prefix),
        },
{
    encode_family(c, prefix, values)
}

/// The circuit built from `s`, evaluated from its own initial wire values,
/// gives `m` on success.
pub open spec fn parses_and_evals(s: Seq<u8>, c: Circuit, m: Seq<Option<bool>>) -> bool {
    &&& c.wf()
    &&& circuit_matches(c, s)
    &&& eval_spec(c, c.inputs@, ident_swap(c.n())) == Ok::<_, CircuitError>(m)
}

/// Parses the circuit text, evaluates it from its initial wire values, and
/// packs the `z` family into an integer.
///
/// Returns `None` when the text is malformed, a wire is written twice, the
/// evaluation stalls or collides, or a `z` wire has no bit-position suffix.
pub fn part1(input: &str) -> (r: Option<u64>)
    ensures
        match r {
            Some(v) => text_wf(input.spec_bytes()) && !dup_out(input.spec_bytes()) && exists|
                c: Circuit,
                m: Seq<Option<bool>>,
            |
                parses_and_evals(input.spec_bytes(), c, m) && family_ok(c, z_prefix()) && forall|
                    b: int,
                |
                    0 <= b < 64 ==> #[trigger] u64_bit(v, b) == family_bit(c, m, z_prefix(), b),
            None => !text_wf(input.spec_bytes()) || dup_out(input.spec_bytes()) || exists|
                c: Circuit,
            |
                c.wf() && circuit_matches(c, input.spec_bytes()) && (eval_spec(
                    c,
                    c.inputs@,
                    ident_swap(c.n()),
                ) is Err || !family_ok(c, z_prefix())),
        },
{
    let bytes = input.as_bytes();
    let c = match parse_circuit(bytes) {
        Ok(c) => c,
        Err(_) => {
            return None;
        },
    };
    let empty: Vec<(usize, usize)> = Vec::new();
    let ident = build_swap(c.names.len(), &empty);
    proof {
        assert(ident@ =~= ident_swap(c.n()));
    }
    let m = match evaluate(&c, &c.inputs, &ident) {
        Ok(m) => m,
        Err(_) => {
            proof {
                assert(c.wf() && circuit_matches(c, input.spec_bytes()) && (eval_spec(
                    c,
                    c.inputs@,
                    ident_swap(c.n()),
                ) is Err || !family_ok(c, z_prefix())));
            }
            return None;
        },
    };
    match encode_family(&c, 122, &m) {
        Ok(v) => {
            proof {
                assert(parses_and_evals(input.spec_bytes(), c, m@) && family_ok(c, z_prefix())
                    && forall|b: int|
                    0 <= b < 64 ==> #[trigger] u64_bit(v, b) == family_bit(c, m@, z_prefix(), b));
            }
            Some(v)
        },
        Err(_) => {
            proof {
                assert(c.wf() && circuit_matches(c, input.spec_bytes()) && (eval_spec(
                    c,
                    c.inputs@,
                    ident_swap(c.n()),
                ) is Err || !family_ok(c, z_prefix())));
            }
            None
        },
    }
}

/// Lexicographic order on byte strings.
pub open spec fn bytes_le(a: Seq<u8>, b: Seq<u8>) -> bool
    decreases a.len(),
{
    if a.len() == 0 {
        true
    } else if b.len() == 0 {
        false
    } else if a[0] < b[0] {
        true
    } else if a[0] > b[0] {
        false
    } else {
        bytes_le(a.skip(1), b.skip(1))
    }
}

pub proof fn lemma_bytes_le_refl(a: Seq<u8>)
    ensures
        bytes_le(a, a),
    decreases a.len(),
{
    if a.len() > 0 {
        lemma_bytes_le_refl(a.skip(1));
    }
}

pub proof fn lemma_bytes_le_total(a: Seq<u8>, b: Seq<u8>)
    ensures
        bytes_le(a, b) || bytes_le(b, a),
    decreases a.len(),
{
    if a.len() > 0 && b.len() > 0 && a[0] == b[0] {
        lemma_bytes_le_total(a.skip(1), b.skip(1));
    }
}

/// Compares two byte strings lexicographically.
pub fn bytes_le_exec(a: &[u8], b: &[u8]) -> (r: bool)
    ensures
        r == bytes_le(a@, b@),
{
    let mut i: usize = 0;
    proof {
        assert(a@.skip(0) =~= a@);
        assert(b@.skip(0) =~= b@);
    }
    while i < a.len() && i < b.len()
        invariant
            0 <= i <= a@.len(),
            0 <= i <= b@.len(),
            bytes_le(a@, b@) == bytes_le(a@.skip(i as int), b@.skip(i as int)),
            forall|j: int| 0 <= j < i ==> a@[j] == b@[j],
        decreases a@.len() - i,
    {
        let x = a[i];
        let y = b[i];
        proof {
            assert(a@.skip(i as int)[0] == x);
            assert(b@.skip(i as int)[0] == y);
            assert(a@.skip(i as int).skip(1) =~= a@.skip(i + 1));
            assert(b@.skip(i as int).skip(1) =~= b@.skip(i + 1));
        }
        if x < y {
            return true;
        }
        if x > y {
            return false;
        }
        i = i + 1;
    }
    proof {
        if i == a@.len() {
            assert(a@.skip(i as int).len() == 0);
        } else {
            assert(b@.skip(i as int).len() == 0);
            assert(a@.skip(i as int).len() > 0);
        }
    }
    i == a.len()
}

/// Adjacent-sorted by `bytes_le`.
pub open spec fn names_sorted(ns: Seq<Seq<u8>>) -> bool {
    forall|j: int| 0 <= j < ns.len() - 1 ==> bytes_le(#[trigger] ns[j], ns[j + 1])
}

/// Sorts byte strings lexicographically (selection sort).  The result is
/// sorted and holds exactly the input's strings, multiplicities included.
pub fn sort_names(v: Vec<Vec<u8>>) -> (r: Vec<Vec<u8>>)
    ensures
        names_sorted(bytes_view(r@)),
        r@.len() == v@.len(),
        bytes_view(r@).to_multiset() == bytes_view(v@).to_multiset(),
{
    broadcast use vstd::seq_lib::group_to_multiset_ensures;

    let ghost v0 = bytes_view(v@);
    let mut r: Vec<Vec<u8>> = Vec::new();
    let n = v.len();
    // selection sort: repeatedly move a least remaining element over
    let mut pool = v;
    proof {
        assert(bytes_view(r@) =~= Seq::<Seq<u8>>::empty());
        assert(bytes_view(pool@).to_multiset().add(bytes_view(r@).to_multiset()) =~= v0.to_multiset());
    }
    while pool.len() > 0
        invariant
            pool@.len() + r@.len() == n,
            names_sorted(bytes_view(r@)),
            bytes_view(pool@).to_multiset().add(bytes_view(r@).to_multiset())
                == v0.to_multiset(),
            // everything sorted so far is below everything left in the pool
            forall|j: int, k: int|
                0 <= j < r@.len() && 0 <= k < pool@.len() ==> bytes_le(
                    (#[trigger] r@[j])@,
                    (#[trigger] pool@[k])@,
                ),
        decreases pool@.len(),
    {
        broadcast use vstd::seq_lib::group_to_multiset_ensures;

        // index of a least element
        let mut mi: usize = 0;
        let mut k: usize = 1;
        proof {
            lemma_bytes_le_refl((pool@[0])@);
        }
        while k < pool.len()
            invariant
                0 <= mi < k <= pool@.len() || (mi == 0 && k <= pool@.len()),
                mi < pool@.len(),
                k <= pool@.len(),
                forall|j: int|
                    0 <= j < k ==> bytes_le((pool@[mi as int])@, (#[trigger] pool@[j])@),
            decreases pool@.len() - k,
        {
            if !bytes_le_exec(pool[mi].as_slice(), pool[k].as_slice()) {
                proof {
                    lemma_bytes_le_total((pool@[mi as int])@, (pool@[k as int])@);
                }
                let ghost oldmi = mi;
                mi = k;
                proof {
                    assert forall|j: int| 0 <= j < k + 1 implies bytes_le(
                        (pool@[mi as int])@,
                        (#[trigger] pool@[j])@,
                    ) by {
                        if j < k {
                            lemma_bytes_le_trans(
                                (pool@[mi as int])@,
                                (pool@[oldmi as int])@,
                                (pool@[j])@,
                            );
                        } else {
                            lemma_bytes_le_refl((pool@[mi as int])@);
                        }
                    }
                }
            }
            k = k + 1;
        }
        let ghost pool0 = pool@;
        let ghost r0 = r@;
        let ghost pv = bytes_view(pool@);
        let ghost rv = bytes_view(r@);
        let m = pool.remove(mi);
        r.push(m);
        proof {
            // one string moved from the pool to the result: the multisets'
            // sum is unchanged
            assert(bytes_view(pool@) =~= pv.remove(mi as int));
            assert(bytes_view(r@) =~= rv.push(m@));
            assert(pv[mi as int] == m@);
            assert(pv.contains(m@));
            assert(pv.remove(mi as int).to_multiset() =~= pv.to_multiset().remove(m@));
            assert(rv.push(m@).to_multiset() =~= rv.to_multiset().insert(m@));
            assert(pv.to_multiset().count(m@) > 0);
            assert(pv.to_multiset().remove(m@).add(rv.to_multiset().insert(m@))
                =~= pv.to_multiset().add(rv.to_multiset()));
            assert(r@ == r0.push(m));
            assert((r@[r@.len() - 1])@ == (pool0[mi as int])@);
            assert forall|j: int| 0 <= j < r@.len() - 1 implies bytes_le(
                (#[trigger] bytes_view(r@)[j]),
                bytes_view(r@)[j + 1],
            ) by {
                assert(bytes_view(r@)[j] == (r@[j])@);
                assert(bytes_view(r@)[j + 1] == (r@[j + 1])@);
                if j < r0.len() - 1 {
                    assert(r@[j] == r0[j] && r@[j + 1] == r0[j + 1]);
                    assert(bytes_view(r0)[j] == (r0[j])@);
                    assert(bytes_view(r0)[j + 1] == (r0[j + 1])@);
                    assert(bytes_le((r0[j])@, (r0[j + 1])@));
                } else {
                    assert(r@[j] == r0[j]);
                    assert(bytes_le((r0[j])@, (pool0[mi as int])@));
                }
            }
            assert forall|j: int, k2: int|
                0 <= j < r@.len() && 0 <= k2 < pool@.len() implies bytes_le(
                (#[trigger] r@[j])@,
                (#[trigger] pool@[k2])@,
            ) by {
                let korig = if k2 < mi as int {
                    k2
                } else {
                    k2 + 1
                };
                assert(pool@[k2] == pool0[korig]);
                if j < r0.len() {
                    assert(bytes_le((r0[j])@, (pool0[korig])@));
                } else {
                    assert((r@[j])@ == (pool0[mi as int])@);
                    assert(bytes_le((pool0[mi as int])@, (pool0[korig])@));
                }
            }
        }
    }
    proof {
        assert(forall|j: int|
            0 <= j < r@.len() - 1 ==> bytes_le((#[trigger] bytes_view(r@)[j]), bytes_view(r@)[j
                + 1]));
        assert(bytes_view(pool@) =~= Seq::<Seq<u8>>::empty());
        assert(bytes_view(pool@).to_multiset().add(bytes_view(r@).to_multiset()) =~= bytes_view(
            r@,
        ).to_multiset());
    }
    r
}

pub proof fn lemma_bytes_le_trans(a: Seq<u8>, b: Seq<u8>, c: Seq<u8>)
    requires
        bytes_le(a, b),
        bytes_le(b, c),
    ensures
        bytes_le(a, c),
    decreases a.len() + b.len() + c.len(),
{
    if a.len() > 0 && b.len() > 0 && c.len() > 0 && a[0] == b[0] && b[0] == c[0] {
        lemma_bytes_le_trans(a.skip(1), b.skip(1), c.skip(1));
    }
}

/// The names joined with commas.
pub open spec fn join_names(ns: Seq<Seq<u8>>) -> Seq<u8>
    decreases ns.len(),
{
    if ns.len() == 0 {
        Seq::empty()
    } else if ns.len() == 1 {
        ns[0]
    } else {
        ns[0] + seq![44u8] + join_names(ns.skip(1))
    }
}

/// Joins byte strings with commas.
pub fn join_names_exec(ns: &Vec<Vec<u8>>) -> (r: Vec<u8>)
    ensures
        r@ == join_names(bytes_view(ns@)),
{
    let mut r: Vec<u8> = Vec::new();
    let mut k: usize = ns.len();
    let mut tail: Vec<u8> = Vec::new();
    // build from the back so the spec's head recursion unfolds per step
    while k > 0
        invariant
            0 <= k <= ns@.len(),
            tail@ == join_names(bytes_view(ns@).skip(k as int)),
        decreases k,
    {
        k = k - 1;
        let mut piece: Vec<u8> = Vec::new();
        let name = &ns[k];
        let mut t: usize = 0;
        while t < name.len()
            invariant
                0 <= t <= name@.len(),
                piece@ == name@.subrange(0, t as int),
            decreases name@.len() - t,
        {
            piece.push(name[t]);
            t = t + 1;
        }
        proof {
            assert(piece@ =~= (ns@[k as int])@);
        }
        if k + 1 < ns.len() {
            piece.push(44);
        }
        let mut joined = piece;
        let mut t2: usize = 0;
        let ghost joined0 = joined@;
        while t2 < tail.len()
            invariant
                0 <= t2 <= tail@.len(),
                joined@ == joined0 + tail@.subrange(0, t2 as int),
            decreases tail@.len() - t2,
        {
            joined.push(tail[t2]);
            t2 = t2 + 1;
        }
        proof {
            let rest = bytes_view(ns@).skip(k as int);
            assert(joined@ =~= joined0 + tail@);
            assert(rest[0] == (ns@[k as int])@);
            assert(rest.skip(1) =~= bytes_view(ns@).skip(k + 1));
            if k + 1 < ns@.len() {
                assert(joined@ =~= rest[0] + seq![44u8] + join_names(rest.skip(1)));
            } else {
                assert(rest.len() == 1);
                assert(tail@.len() == 0);
                assert(joined@ =~= rest[0]);
            }
        }
        tail = joined;
    }
    proof {
        assert(bytes_view(ns@).skip(0) =~= bytes_view(ns@));
    }
    tail
}

/// The number of wires among the first `upto` whose name carries `prefix`.
pub open spec fn count_family(c: Circuit, prefix: u8, upto: int) -> int
    decreases upto,
{
    if upto <= 0 {
        0
    } else {
        count_family(c, prefix, upto - 1) + if 0 <= upto - 1 < c.n() && crate::codec::in_family(
            (c.names@[upto - 1])@,
            prefix,
        ) {
            1int
        } else {
            0int
        }
    }
}

/// Counts the wires of the `x` input family: the adder's digit count.
pub fn count_x_wires(c: &Circuit) -> (r: usize)
    ensures
        r <= c.n(),
        r as int == count_family(*c, x_prefix(), c.n()),
{
    let mut cnt: usize = 0;
    let mut w: usize = 0;
    while w < c.names.len()
        invariant
            0 <= w <= c.names@.len(),
            cnt <= w,
            cnt as int == count_family(*c, x_prefix(), w as int),
        decreases c.names@.len() - w,
    {
        let name = &c.names[w];
        if name.len() >= 1 && name[0] == 120 {
            cnt = cnt + 1;
        }
        w = w + 1;
    }
    cnt
}

/// The names of the swap set's members, a pair at a time.
pub open spec fn pair_names(c: Circuit, pairs: Seq<(usize, usize)>) -> Seq<Seq<u8>>
    decreases pairs.len(),
{
    if pairs.len() == 0 {
        Seq::empty()
    } else {
        pair_names(c, pairs.drop_last()) + seq![
            (c.names@[pairs.last().0 as int])@,
            (c.names@[pairs.last().1 as int])@,
        ]
    }
}

/// Searches for the output swaps (up to `budget` pairs) that make the parsed
/// circuit a correct adder over its `x`-wire digit count, and reports the
/// swapped wire names, ascending and comma-joined.
///
/// `Some(s)` means the parsed circuit's repair search (`repair_spec` over its
/// own suspect list) found a zero-error swap set, and `s` joins the sorted
/// names of that set's members.  `None` means the text is malformed, a wire
/// is written twice, the digit count exceeds 63, the bare validation fails,
/// or the search finds no zero-error set.
pub fn part2(input: &str, budget: usize) -> (r: Option<Vec<u8>>)
    ensures
        r matches Some(s) ==> exists|c: Circuit, pairs: Seq<(usize, usize)>, sus: Seq<usize>|
            #![trigger base_suspects(c, count_family(c, x_prefix(), c.n()), sus), pair_names(c, pairs)]
            {
                &&& c.wf()
                &&& circuit_matches(c, input.spec_bytes())
                &&& count_family(c, x_prefix(), c.n()) <= 63
                &&& base_suspects(c, count_family(c, x_prefix(), c.n()), sus)
                &&& repair_spec(c, count_family(c, x_prefix(), c.n()), budget as int, sus)
                    == RepairOutcome::Found(pairs)
                &&& pairs_wf(c.n(), pairs)
                &&& validate_spec(c, swap_of_pairs(c.n(), pairs), count_family(c, x_prefix(), c.n()))
                    == Ok::<int, CircuitError>(0)
                &&& exists|ns: Seq<Seq<u8>>|
                    #![trigger join_names(ns)]
                    names_sorted(ns) && ns.to_multiset() == pair_names(c, pairs).to_multiset()
                        && s@ == join_names(ns)
            },
        r is None ==> !text_wf(input.spec_bytes()) || dup_out(input.spec_bytes()) || (exists|
            c: Circuit,
        |
            c.wf() && #[trigger] circuit_matches(c, input.spec_bytes()) && count_family(
                c,
                x_prefix(),
                c.n(),
            ) > 63) || (exists|c: Circuit|
            c.wf() && #[trigger] circuit_matches(c, input.spec_bytes()) && validate_spec(
                c,
                ident_swap(c.n()),
                count_family(c, x_prefix(), c.n()),
            ) is Err) || (exists|c: Circuit, sus: Seq<usize>|
            c.wf() && circuit_matches(c, input.spec_bytes()) && #[trigger] base_suspects(
                c,
                count_family(c, x_prefix(), c.n()),
                sus,
            ) && !(repair_spec(c, count_family(c, x_prefix(), c.n()), budget as int, sus)
                is Found)),
{
    let bytes = input.as_bytes();
    let c = match parse_circuit(bytes) {
        Ok(c) => c,
        Err(_) => {
            return None;
        },
    };
    let digits = count_x_wires(&c);
    if digits > 63 {
        proof {
            assert(c.wf() && circuit_matches(c, input.spec_bytes()) && count_family(
                c,
                x_prefix(),
                c.n(),
            ) > 63);
        }
        return None;
    }
    let result = match find_repair(&c, digits, budget) {
        Ok(rr) => rr,
        Err(_) => {
            proof {
                assert(c.wf() && circuit_matches(c, input.spec_bytes()) && validate_spec(
                    c,
                    ident_swap(c.n()),
                    count_family(c, x_prefix(), c.n()),
                ) is Err);
            }
            return None;
        },
    };
    let ghost sus = choose|sus: Seq<usize>|
        #[trigger] base_suspects(c, digits as int, sus) && outcome_of(result) == repair_spec(
            c,
            digits as int,
            budget as int,
            sus,
        );
    let pairs = match result {
        RepairResult::Found(pairs) => pairs,
        RepairResult::Improved(p, e) => {
            proof {
                assert(!(repair_spec(c, digits as int, budget as int, sus) is Found));
            }
            return None;
        },
        RepairResult::NoImprovement => {
            proof {
                assert(!(repair_spec(c, digits as int, budget as int, sus) is Found));
            }
            return None;
        },
    };
    let mut names: Vec<Vec<u8>> = Vec::new();
    let mut k: usize = 0;
    proof {
        assert(bytes_view(names@) =~= pair_names(c, pairs@.take(0)));
    }
    while k < pairs.len()
        invariant
            c.wf(),
            pairs_wf(c.n(), pairs@),
            0 <= k <= pairs@.len(),
            bytes_view(names@) == pair_names(c, pairs@.take(k as int)),
        decreases pairs@.len() - k,
    {
        let (a, b) = pairs[k];
        let ghost names0 = bytes_view(names@);
        let mut na: Vec<u8> = Vec::new();
        let name_a = &c.names[a];
        let mut t: usize = 0;
        while t < name_a.len()
            invariant
                0 <= t <= name_a@.len(),
                na@ == name_a@.subrange(0, t as int),
            decreases name_a@.len() - t,
        {
            na.push(name_a[t]);
            t = t + 1;
        }
        proof {
            assert(na@ =~= (c.names@[a as int])@);
        }
        names.push(na);
        let mut nb: Vec<u8> = Vec::new();
        let name_b = &c.names[b];
        let mut t2: usize = 0;
        while t2 < name_b.len()
            invariant
                0 <= t2 <= name_b@.len(),
                nb@ == name_b@.subrange(0, t2 as int),
            decreases name_b@.len() - t2,
        {
            nb.push(name_b[t2]);
            t2 = t2 + 1;
        }
        proof {
            assert(nb@ =~= (c.names@[b as int])@);
        }
        names.push(nb);
        proof {
            let tk = pairs@.take(k + 1);
            assert(tk.drop_last() =~= pairs@.take(k as int));
            assert(tk.last() == pairs@[k as int]);
            assert(bytes_view(names@) =~= names0 + seq![
                (c.names@[pairs@[k as int].0 as int])@,
                (c.names@[pairs@[k as int].1 as int])@,
            ]);
        }
        k = k + 1;
    }
    proof {
        assert(pairs@.take(pairs@.len() as int) =~= pairs@);
    }
    let sorted = sort_names(names);
    let joined = join_names_exec(&sorted);
    proof {
        assert(outcome_of(RepairResult::Found(pairs)) == RepairOutcome::Found(pairs@));
        assert(repair_spec(c, digits as int, budget as int, sus) == RepairOutcome::Found(pairs@));
        assert(names_sorted(bytes_view(sorted@)) && bytes_view(sorted@).to_multiset()
            == pair_names(c, pairs@).to_multiset() && joined@ == join_names(bytes_view(sorted@)));
        assert(c.wf() && circuit_matches(c, input.spec_bytes()) && count_family(
            c,
            x_prefix(),
            c.n(),
        ) <= 63 && base_suspects(c, count_family(c, x_prefix(), c.n()), sus) && repair_spec(
            c,
            count_family(c, x_prefix(), c.n()),
            budget as int,
            sus,
        ) == RepairOutcome::Found(pairs@) && pairs_wf(c.n(), pairs@) && validate_spec(
            c,
            swap_of_pairs(c.n(), pairs@),
            count_family(c, x_prefix(), c.n()),
        ) == Ok::<int, CircuitError>(0));
    }
    Some(joined)
}

} // verus!