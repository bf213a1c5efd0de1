//! The adder oracle: drives the evaluator with canonical per-digit test
//! vectors and reports which output bits are wrong and how many mismatches
//! occurred; failing bits feed the reachability search to build a suspect set
//! of internal wires.
//!
//! For digit `i` of an adder with inputs `x..`/`y..` and outputs `z..`, the
//! four canonical vectors are: all zero (expect 0), `1<<i` on `x` alone
//! (expect `1<<i`), `1<<i` on `y` alone (expect `1<<i`), and `1<<i` on both
//! (expect `1<<(i+1)`, the carry).

use vstd::prelude::*;

use crate::circuit::{Circuit, CircuitError};
use crate::util::dec_val;
use crate::codec::{family_bit, family_ok, suffix_ok, suffix_val, u64_bit};
use crate::eval::{eval_spec, evaluate, inputs_wf, swap_wf};
use crate::reach::{reaches, shortest_path};

verus! {

/// The prefixes of the two input families and of the output family.
pub open spec fn x_prefix() -> u8 {
    120
}

pub open spec fn y_prefix() -> u8 {
    121
}

pub open spec fn z_prefix() -> u8 {
    122
}

/// The two-digit zero-padded family wire name `{prefix}{k:02}` for `k < 100`.
pub open spec fn fam_name(prefix: u8, k: int) -> Seq<u8> {
    seq![prefix, (48 + k / 10) as u8, (48 + k % 10) as u8]
}

pub proof fn lemma_fam_name_inj(p1: u8, k1: int, p2: u8, k2: int)
    requires
        0 <= k1 < 100,
        0 <= k2 < 100,
        fam_name(p1, k1) == fam_name(p2, k2),
    ensures
        p1 == p2 && k1 == k2,
{
    assert(fam_name(p1, k1)[0] == p1 && fam_name(p2, k2)[0] == p2);
    assert(fam_name(p1, k1)[1] == (48 + k1 / 10) as u8);
    assert(fam_name(p1, k1)[2] == (48 + k1 % 10) as u8);
    assert(fam_name(p2, k2)[1] == (48 + k2 / 10) as u8);
    assert(fam_name(p2, k2)[2] == (48 + k2 % 10) as u8);
    assert(0 <= k1 / 10 <= 9 && 0 <= k1 % 10 <= 9);
    assert(0 <= k2 / 10 <= 9 && 0 <= k2 % 10 <= 9);
    assert(k1 / 10 == k2 / 10 && k1 % 10 == k2 % 10);
    assert(k1 == 10 * (k1 / 10) + k1 % 10);
    assert(k2 == 10 * (k2 / 10) + k2 % 10);
}

/// Builds the name `{prefix}{k:02}`.
pub fn make_fam_name(prefix: u8, k: usize) -> (r: Vec<u8>)
    requires
        k < 100,
    ensures
        r@ == fam_name(prefix, k as int),
{
    let mut r: Vec<u8> = Vec::new();
    r.push(prefix);
    r.push(48 + (k / 10) as u8);
    r.push(48 + (k % 10) as u8);
    proof {
        assert(r@ =~= fam_name(prefix, k as int));
    }
    r
}

/// The assignment entry for family wire `{prefix}{k:02}`: bit `k` of `v`,
/// or nothing if the circuit has no such wire.
pub open spec fn fam_entry(c: Circuit, prefix: u8, v: u64, k: int) -> Seq<(usize, bool)> {
    match c.spec_wire_id(fam_name(prefix, k)) {
        Some(w) => seq![(w as usize, u64_bit(v, k))],
        None => Seq::empty(),
    }
}

/// The canonical primary-input assignment: bit `k` of `xv` on wire `x{k:02}`
/// and bit `k` of `yv` on wire `y{k:02}`, for every `k` below `digits`.
pub open spec fn vec_inputs(c: Circuit, xv: u64, yv: u64, digits: int) -> Seq<(usize, bool)>
    decreases digits,
{
    if digits <= 0 {
        Seq::empty()
    } else {
        vec_inputs(c, xv, yv, digits - 1) + fam_entry(c, x_prefix(), xv, digits - 1) + fam_entry(
            c,
            y_prefix(),
            yv,
            digits - 1,
        )
    }
}

/// Builds the canonical assignment for the vector `(xv, yv)`.
pub fn build_inputs(c: &Circuit, xv: u64, yv: u64, digits: usize) -> (r: Vec<(usize, bool)>)
    requires
        c.wf(),
        digits <= 64,
    ensures
        r@ == vec_inputs(*c, xv, yv, digits as int),
        inputs_wf(r@, c.n()),
{
    let mut r: Vec<(usize, bool)> = Vec::new();
    let mut k: usize = 0;
    while k < digits
        invariant
            c.wf(),
            digits <= 64,
            0 <= k <= digits,
            r@ == vec_inputs(*c, xv, yv, k as int),
        decreases digits - k,
    {
        let name_x = make_fam_name(120, k);
        let name_y = make_fam_name(121, k);
        let ghost r0 = r@;
        match c.wire_id(name_x.as_slice()) {
            Some(w) => {
                let bit = (xv >> (k as u64)) & 1 == 1;
                r.push((w, bit));
            },
            None => {},
        }
        let ghost r1 = r@;
        match c.wire_id(name_y.as_slice()) {
            Some(w) => {
                let bit = (yv >> (k as u64)) & 1 == 1;
                r.push((w, bit));
            },
            None => {},
        }
        proof {
            assert(r1 =~= r0 + fam_entry(*c, x_prefix(), xv, k as int));
            assert(r@ =~= r1 + fam_entry(*c, y_prefix(), yv, k as int));
            assert(r@ =~= vec_inputs(*c, xv, yv, k + 1));
        }
        k = k + 1;
    }
    proof {
        lemma_vec_inputs_carry(*c, xv, yv, digits as int);
        assert forall|j: int| 0 <= j < r@.len() implies (#[trigger] r@[j]).0 < c.n() by {
            let (p, kk) = choose|p: u8, kk: int|
                0 <= kk < digits && (p == x_prefix() || p == y_prefix()) && (c.names@[(
                r@[j]).0 as int])@ == fam_name(p, kk) && r@[j].0 < c.n();
        }
        assert forall|j1: int, j2: int| 0 <= j1 < j2 < r@.len() implies (#[trigger] r@[j1]).0 != (
        #[trigger] r@[j2]).0 by {
            lemma_vec_inputs_distinct(*c, xv, yv, digits as int, j1, j2);
        }
    }
    r
}

/// A nonempty `fam_entry` names the unique wire carrying `{prefix}{k:02}`.
proof fn lemma_fam_entry(c: Circuit, prefix: u8, v: u64, k: int)
    requires
        c.wf(),
    ensures
        fam_entry(c, prefix, v, k).len() <= 1,
        fam_entry(c, prefix, v, k).len() == 1 ==> {
            let w = fam_entry(c, prefix, v, k)[0].0;
            w < c.n() && (c.names@[w as int])@ == fam_name(prefix, k) && (w as int) == c.spec_wire_id(
                fam_name(prefix, k),
            )->Some_0
        },
{
    let name = fam_name(prefix, k);
    if c.spec_wire_id(name) is Some {
        assert(exists|i: int| 0 <= i < c.n() && (#[trigger] c.names@[i])@ == name);
        let i = choose|i: int| 0 <= i < c.n() && (#[trigger] c.names@[i])@ == name;
        assert(c.spec_wire_id(name) == Some(i));
        assert(c.names.len() == c.names@.len());
        assert(fam_entry(c, prefix, v, k)[0].0 == i as usize);
    }
}

/// In `vec_inputs`, distinct positions carry distinct wires.
proof fn lemma_vec_inputs_distinct(c: Circuit, xv: u64, yv: u64, digits: int, j1: int, j2: int)
    requires
        c.wf(),
        digits <= 100,
        0 <= j1 < j2 < vec_inputs(c, xv, yv, digits).len(),
    ensures
        vec_inputs(c, xv, yv, digits)[j1].0 != vec_inputs(c, xv, yv, digits)[j2].0,
    decreases digits,
{
    if digits > 0 {
        let prev = vec_inputs(c, xv, yv, digits - 1);
        let ex = fam_entry(c, x_prefix(), xv, digits - 1);
        let ey = fam_entry(c, y_prefix(), yv, digits - 1);
        let cur = vec_inputs(c, xv, yv, digits);
        assert(cur == prev + ex + ey);
        lemma_vec_inputs_carry(c, xv, yv, digits - 1);
        lemma_fam_entry(c, x_prefix(), xv, digits - 1);
        lemma_fam_entry(c, y_prefix(), yv, digits - 1);
        if j2 < prev.len() {
            lemma_vec_inputs_distinct(c, xv, yv, digits - 1, j1, j2);
            assert(cur[j1] == prev[j1] && cur[j2] == prev[j2]);
        } else {
            // j2 names wire x/y at digit `digits - 1`; j1 is either an earlier
            // digit's wire or the x-wire while j2 is the y-wire
            let w2 = cur[j2].0;
            let p2: u8 = if j2 < prev.len() + ex.len() {
                x_prefix()
            } else {
                y_prefix()
            };
            assert((c.names@[w2 as int])@ == fam_name(p2, digits - 1) && w2 < c.n()) by {
                if j2 < prev.len() + ex.len() {
                    assert(cur[j2] == ex[j2 - prev.len()]);
                } else {
                    assert(cur[j2] == ey[j2 - prev.len() - ex.len()]);
                }
            }
            if j1 < prev.len() {
                let (p1, k1) = choose|p: u8, kk: int|
                    0 <= kk < digits - 1 && (p == x_prefix() || p == y_prefix()) && (c.names@[(
                    #[trigger] prev[j1]).0 as int])@ == fam_name(p, kk) && prev[j1].0 < c.n();
                assert(cur[j1] == prev[j1]);
                if cur[j1].0 == w2 {
                    c.lemma_wire_id_unique(fam_name(p1, k1), w2 as int);
                    c.lemma_wire_id_unique(fam_name(p2, digits - 1), w2 as int);
                    lemma_fam_name_inj(p1, k1, p2, digits - 1);
                }
            } else {
                // both in this digit's entries: one x, one y
                assert(j1 < prev.len() + ex.len() && j2 >= prev.len() + ex.len());
                let w1 = cur[j1].0;
                assert((c.names@[w1 as int])@ == fam_name(x_prefix(), digits - 1) && w1 < c.n())
                    by {
                    assert(cur[j1] == ex[j1 - prev.len()]);
                }
                if w1 == w2 {
                    c.lemma_wire_id_unique(fam_name(x_prefix(), digits - 1), w1 as int);
                    c.lemma_wire_id_unique(fam_name(y_prefix(), digits - 1), w2 as int);
                    lemma_fam_name_inj(x_prefix(), digits - 1, y_prefix(), digits - 1);
                }
            }
        }
    }
}

/// Every entry of `vec_inputs` is an x- or y-family wire of a digit below
/// `digits`, in range.
proof fn lemma_vec_inputs_carry(c: Circuit, xv: u64, yv: u64, digits: int)
    requires
        c.wf(),
        0 <= digits <= 100,
    ensures
        forall|j: int|
            0 <= j < vec_inputs(c, xv, yv, digits).len() ==> exists|p: u8, kk: int|
                0 <= kk < digits && (p == x_prefix() || p == y_prefix()) && (c.names@[(
                #[trigger] vec_inputs(c, xv, yv, digits)[j]).0 as int])@ == fam_name(p, kk)
                    && vec_inputs(c, xv, yv, digits)[j].0 < c.n(),
    decreases digits,
{
    if digits > 0 {
        lemma_vec_inputs_carry(c, xv, yv, digits - 1);
        let prev = vec_inputs(c, xv, yv, digits - 1);
        let ex = fam_entry(c, x_prefix(), xv, digits - 1);
        let ey = fam_entry(c, y_prefix(), yv, digits - 1);
        let cur = vec_inputs(c, xv, yv, digits);
        assert forall|j: int| 0 <= j < cur.len() implies exists|p: u8, kk: int|
            0 <= kk < digits && (p == x_prefix() || p == y_prefix()) && (c.names@[(
            #[trigger] cur[j]).0 as int])@ == fam_name(p, kk) && cur[j].0 < c.n() by {
            if j < prev.len() {
                assert(cur[j] == prev[j]);
                let (p, kk) = choose|p: u8, kk: int|
                    0 <= kk < digits - 1 && (p == x_prefix() || p == y_prefix()) && (c.names@[(
                    #[trigger] prev[j]).0 as int])@ == fam_name(p, kk) && prev[j].0 < c.n();
                assert(0 <= kk < digits && (p == x_prefix() || p == y_prefix()) && (c.names@[(
                cur[j]).0 as int])@ == fam_name(p, kk) && cur[j].0 < c.n());
            } else if j < prev.len() + ex.len() {
                assert(cur[j] == ex[j - prev.len()]);
                lemma_fam_entry(c, x_prefix(), xv, digits - 1);
                assert((c.names@[(cur[j]).0 as int])@ == fam_name(x_prefix(), digits - 1));
            } else {
                assert(cur[j] == ey[j - prev.len() - ex.len()]);
                lemma_fam_entry(c, y_prefix(), yv, digits - 1);
                assert((c.names@[(cur[j]).0 as int])@ == fam_name(y_prefix(), digits - 1));
            }
        }
    }
}

/// The `x` value of canonical vector `v` for digit `i`.
pub open spec fn vec_x(i: int, v: int) -> u64 {
    if v == 1 || v == 3 {
        1u64 << (i as u64)
    } else {
        0
    }
}

/// The `y` value of canonical vector `v` for digit `i`.
pub open spec fn vec_y(i: int, v: int) -> u64 {
    if v == 2 || v == 3 {
        1u64 << (i as u64)
    } else {
        0
    }
}

/// The expected sum of canonical vector `v` for digit `i`.
pub open spec fn vec_expected(i: int, v: int) -> u64 {
    if v == 0 {
        0
    } else if v == 3 {
        1u64 << ((i + 1) as u64)
    } else {
        1u64 << (i as u64)
    }
}

/// Mismatches between the `z` family of `m` and `expected`, over output bit
/// positions below `upto`.
pub open spec fn mism_upto(c: Circuit, m: Seq<Option<bool>>, expected: u64, upto: int) -> int
    decreases upto,
{
    if upto <= 0 {
        0
    } else {
        mism_upto(c, m, expected, upto - 1) + if family_bit(c, m, z_prefix(), upto - 1) != u64_bit(
            expected,
            upto - 1,
        ) {
            1int
        } else {
            0int
        }
    }
}

pub proof fn lemma_mism_upto_bound(c: Circuit, m: Seq<Option<bool>>, expected: u64, upto: int)
    ensures
        0 <= mism_upto(c, m, expected, upto),
        mism_upto(c, m, expected, upto) <= if upto >= 0 {
            upto
        } else {
            0
        },
    decreases upto,
{
    if upto > 0 {
        lemma_mism_upto_bound(c, m, expected, upto - 1);
    }
}

/// The mismatch count of one canonical vector: evaluate, read the `z` family,
/// compare every output position `0..=digits` with the expected sum.
pub open spec fn vec_errors(c: Circuit, swap: Seq<usize>, i: int, digits: int, v: int) -> Result<
    int,
    CircuitError,
> {
    match eval_spec(c, vec_inputs(c, vec_x(i, v), vec_y(i, v), digits), swap) {
        Err(e) => Err(e),
        Ok(m) => if !family_ok(c, z_prefix()) {
            Err(CircuitError::Format)
        } else {
            Ok(mism_upto(c, m, vec_expected(i, v), digits + 1))
        },
    }
}

/// The error count of the canonical vectors from `v` on, summed; the first
/// failure wins.
pub open spec fn errs_from(c: Circuit, swap: Seq<usize>, i: int, digits: int, v: int) -> Result<
    int,
    CircuitError,
>
    decreases 4 - v,
{
    if v >= 4 {
        Ok(0)
    } else {
        match vec_errors(c, swap, i, digits, v) {
            Err(e) => Err(e),
            Ok(ev) => match errs_from(c, swap, i, digits, v + 1) {
                Err(e) => Err(e),
                Ok(rest) => Ok(ev + rest),
            },
        }
    }
}

/// What `check_digit` counts for digit `i`: the mismatches of its four
/// canonical vectors.
pub open spec fn digit_errors(c: Circuit, swap: Seq<usize>, i: int, digits: int) -> Result<
    int,
    CircuitError,
> {
    errs_from(c, swap, i, digits, 0)
}

pub proof fn lemma_errs_from_bound(c: Circuit, swap: Seq<usize>, i: int, digits: int, v: int)
    requires
        0 <= v <= 4,
        0 <= digits,
    ensures
        errs_from(c, swap, i, digits, v) matches Ok(e) ==> 0 <= e <= (4 - v) * (digits + 1),
    decreases 4 - v,
{
    if v < 4 {
        lemma_errs_from_bound(c, swap, i, digits, v + 1);
        if vec_errors(c, swap, i, digits, v) matches Ok(ev) {
            lemma_mism_upto_bound(
                c,
                eval_spec(c, vec_inputs(c, vec_x(i, v), vec_y(i, v), digits), swap)->Ok_0,
                vec_expected(i, v),
                digits + 1,
            );
            assert((4 - v) * (digits + 1) == (4 - (v + 1)) * (digits + 1) + (digits + 1))
                by (nonlinear_arith);
        }
    }
}

/// Canonical vector `v` recorded a mismatch for digit `i` at output bit `j`.
pub open spec fn vec_mism(c: Circuit, swap: Seq<usize>, i: int, digits: int, v: int, j: int) -> bool {
    match eval_spec(c, vec_inputs(c, vec_x(i, v), vec_y(i, v), digits), swap) {
        Ok(m) => family_bit(c, m, z_prefix(), j) != u64_bit(vec_expected(i, v), j),
        Err(_) => false,
    }
}

/// Some canonical vector below `vmax` recorded a mismatch at bit `j`.
pub open spec fn bit_bad_upto(
    c: Circuit,
    swap: Seq<usize>,
    i: int,
    digits: int,
    j: int,
    vmax: int,
) -> bool {
    exists|v: int| 0 <= v < vmax && #[trigger] vec_mism(c, swap, i, digits, v, j)
}

/// Some canonical vector of digit `i` recorded a mismatch at output bit `j`.
pub open spec fn bit_bad(c: Circuit, swap: Seq<usize>, i: int, digits: int, j: int) -> bool {
    bit_bad_upto(c, swap, i, digits, j, 4)
}

proof fn lemma_bad_upto_step(c: Circuit, swap: Seq<usize>, i: int, digits: int, j: int, v: int)
    requires
        v >= 0,
    ensures
        bit_bad_upto(c, swap, i, digits, j, v + 1) <==> (bit_bad_upto(c, swap, i, digits, j, v)
            || vec_mism(c, swap, i, digits, v, j)),
{
    if bit_bad_upto(c, swap, i, digits, j, v + 1) {
        let v2 = choose|v2: int| 0 <= v2 < v + 1 && #[trigger] vec_mism(c, swap, i, digits, v2, j);
        if v2 < v {
            assert(bit_bad_upto(c, swap, i, digits, j, v));
        }
    }
    if bit_bad_upto(c, swap, i, digits, j, v) {
        let v2 = choose|v2: int| 0 <= v2 < v && #[trigger] vec_mism(c, swap, i, digits, v2, j);
        assert(bit_bad_upto(c, swap, i, digits, j, v + 1));
    }
    if 0 <= v && vec_mism(c, swap, i, digits, v, j) {
        assert(bit_bad_upto(c, swap, i, digits, j, v + 1));
    }
}

/// A mismatch at a position below `upto` makes the mismatch count positive.
proof fn lemma_mism_upto_at(c: Circuit, m: Seq<Option<bool>>, expected: u64, t: int, upto: int)
    requires
        0 <= t < upto,
        family_bit(c, m, z_prefix(), t) != u64_bit(expected, t),
    ensures
        mism_upto(c, m, expected, upto) >= 1,
    decreases upto,
{
    lemma_mism_upto_bound(c, m, expected, upto - 1);
    if t < upto - 1 {
        lemma_mism_upto_at(c, m, expected, t, upto - 1);
    }
}

/// A recorded mismatch makes the digit's whole error count positive.
proof fn lemma_bad_implies_errs(
    c: Circuit,
    swap: Seq<usize>,
    i: int,
    digits: int,
    t: int,
    vstart: int,
)
    requires
        0 <= t <= digits,
        0 <= vstart <= 3,
        exists|v: int| vstart <= v < 4 && #[trigger] vec_mism(c, swap, i, digits, v, t),
    ensures
        errs_from(c, swap, i, digits, vstart) matches Ok(e) ==> e >= 1,
    decreases 4 - vstart,
{
    if errs_from(c, swap, i, digits, vstart) matches Ok(e) {
        let v = choose|v: int| vstart <= v < 4 && #[trigger] vec_mism(c, swap, i, digits, v, t);
        lemma_errs_from_bound(c, swap, i, digits, vstart + 1);
        if v == vstart {
            let m = eval_spec(
                c,
                vec_inputs(c, vec_x(i, vstart), vec_y(i, vstart), digits),
                swap,
            )->Ok_0;
            lemma_mism_upto_at(c, m, vec_expected(i, vstart), t, digits + 1);
        } else {
            lemma_bad_implies_errs(c, swap, i, digits, t, vstart + 1);
            if vec_errors(c, swap, i, digits, vstart) matches Ok(ev) {
                lemma_mism_upto_bound(
                    c,
                    eval_spec(
                        c,
                        vec_inputs(c, vec_x(i, vstart), vec_y(i, vstart), digits),
                        swap,
                    )->Ok_0,
                    vec_expected(i, vstart),
                    digits + 1,
                );
            }
        }
    }
}

/// Wire `f` is digit `i`'s x- or y-family input wire.
pub open spec fn digit_input(c: Circuit, i: int, f: usize) -> bool {
    ||| c.spec_wire_id(fam_name(x_prefix(), i)) == Some(f as int)
    ||| c.spec_wire_id(fam_name(y_prefix(), i)) == Some(f as int)
}

/// Wire `w` lies between digit `i`'s input family and a wrong output bit:
/// some canonical vector got bit `j` wrong, and `w` sits on a line from one
/// of the digit's input wires to the wire `z{j:02}`.
pub open spec fn linked_at(c: Circuit, swap: Seq<usize>, i: int, digits: int, w: usize) -> bool {
    exists|j: int, f: usize|
        #![trigger bit_bad(c, swap, i, digits, j), digit_input(c, i, f)]
        {
            &&& 0 <= j <= digits
            &&& bit_bad(c, swap, i, digits, j)
            &&& c.spec_wire_id(fam_name(z_prefix(), j)) is Some
            &&& crate::reach::reaches(
                c,
                w,
                c.spec_wire_id(fam_name(z_prefix(), j))->Some_0 as usize,
            )
            &&& digit_input(c, i, f)
            &&& crate::reach::reaches(c, f, w)
        }
}

/// `linked_at`, for some digit below `digits`.
pub open spec fn linked_any(c: Circuit, swap: Seq<usize>, digits: int, w: usize) -> bool {
    exists|i: int| 0 <= i < digits && #[trigger] linked_at(c, swap, i, digits, w)
}

/// Every wrong output bit whose wire exists, is not primary, and is reachable
/// from one of the digit's input wires appears in the suspect list.
pub open spec fn z_suspects_complete(
    c: Circuit,
    swap: Seq<usize>,
    i: int,
    digits: int,
    s: Seq<usize>,
) -> bool {
    forall|j: int|
        #![trigger bit_bad(c, swap, i, digits, j)]
        0 <= j <= digits && bit_bad(c, swap, i, digits, j) && c.spec_wire_id(
            fam_name(z_prefix(), j),
        ) is Some && !c.is_input_wire(c.spec_wire_id(fam_name(z_prefix(), j))->Some_0) && (exists|
            f: usize,
        |
            #[trigger] digit_input(c, i, f) && crate::reach::reaches(
                c,
                f,
                c.spec_wire_id(fam_name(z_prefix(), j))->Some_0 as usize,
            )) ==> s.contains(c.spec_wire_id(fam_name(z_prefix(), j))->Some_0 as usize)
}

/// The completeness condition of `z_suspects_complete` at one bit position.
pub open spec fn z_bit_due(c: Circuit, swap: Seq<usize>, i: int, digits: int, j: int) -> bool {
    &&& 0 <= j <= digits
    &&& bit_bad(c, swap, i, digits, j)
    &&& c.spec_wire_id(fam_name(z_prefix(), j)) is Some
    &&& !c.is_input_wire(c.spec_wire_id(fam_name(z_prefix(), j))->Some_0)
    &&& exists|f: usize|
        #[trigger] digit_input(c, i, f) && crate::reach::reaches(
            c,
            f,
            c.spec_wire_id(fam_name(z_prefix(), j))->Some_0 as usize,
        )
}

/// As `z_suspects_complete`, over the bit positions below `jmax` only.
pub open spec fn z_complete_upto(
    c: Circuit,
    swap: Seq<usize>,
    i: int,
    digits: int,
    s: Seq<usize>,
    jmax: int,
) -> bool {
    forall|j: int|
        0 <= j < jmax && #[trigger] z_bit_due(c, swap, i, digits, j) ==> s.contains(
            c.spec_wire_id(fam_name(z_prefix(), j))->Some_0 as usize,
        )
}

proof fn lemma_z_upto_mono(
    c: Circuit,
    swap: Seq<usize>,
    i: int,
    digits: int,
    s0: Seq<usize>,
    s1: Seq<usize>,
    jmax: int,
)
    requires
        z_complete_upto(c, swap, i, digits, s0, jmax),
        s0.len() <= s1.len(),
        forall|k: int| 0 <= k < s0.len() ==> (#[trigger] s1[k]) == s0[k],
    ensures
        z_complete_upto(c, swap, i, digits, s1, jmax),
{
    assert forall|j: int|
        0 <= j < jmax && #[trigger] z_bit_due(c, swap, i, digits, j) implies s1.contains(
        c.spec_wire_id(fam_name(z_prefix(), j))->Some_0 as usize,
    ) by {
        let wz = c.spec_wire_id(fam_name(z_prefix(), j))->Some_0 as usize;
        assert(s0.contains(wz));
        let k0 = choose|k0: int| 0 <= k0 < s0.len() && (#[trigger] s0[k0]) == wz;
        assert(s1[k0] == wz);
    }
}

proof fn lemma_z_upto_extend(
    c: Circuit,
    swap: Seq<usize>,
    i: int,
    digits: int,
    s: Seq<usize>,
    jmax: int,
)
    requires
        z_complete_upto(c, swap, i, digits, s, jmax),
        z_bit_due(c, swap, i, digits, jmax) ==> s.contains(
            c.spec_wire_id(fam_name(z_prefix(), jmax))->Some_0 as usize,
        ),
    ensures
        z_complete_upto(c, swap, i, digits, s, jmax + 1),
{
}

/// A completeness record over a subset carries to any list holding it.
proof fn lemma_z_complete_from_subset(
    c: Circuit,
    swap: Seq<usize>,
    i: int,
    digits: int,
    s0: Seq<usize>,
    s1: Seq<usize>,
)
    requires
        z_suspects_complete(c, swap, i, digits, s0),
        forall|k: int| 0 <= k < s0.len() ==> s1.contains(#[trigger] s0[k]),
    ensures
        z_suspects_complete(c, swap, i, digits, s1),
{
    assert forall|j: int|
        #![trigger bit_bad(c, swap, i, digits, j)]
        0 <= j <= digits && bit_bad(c, swap, i, digits, j) && c.spec_wire_id(
            fam_name(z_prefix(), j),
        ) is Some && !c.is_input_wire(c.spec_wire_id(fam_name(z_prefix(), j))->Some_0) && (exists|
            f: usize,
        |
            #[trigger] digit_input(c, i, f) && crate::reach::reaches(
                c,
                f,
                c.spec_wire_id(fam_name(z_prefix(), j))->Some_0 as usize,
            )) implies s1.contains(
        c.spec_wire_id(fam_name(z_prefix(), j))->Some_0 as usize,
    ) by {
        let wz = c.spec_wire_id(fam_name(z_prefix(), j))->Some_0 as usize;
        assert(s0.contains(wz));
        let k0 = choose|k0: int| 0 <= k0 < s0.len() && (#[trigger] s0[k0]) == wz;
    }
}

proof fn lemma_z_complete_mono(
    c: Circuit,
    swap: Seq<usize>,
    i: int,
    digits: int,
    s0: Seq<usize>,
    s1: Seq<usize>,
)
    requires
        z_suspects_complete(c, swap, i, digits, s0),
        s0.len() <= s1.len(),
        forall|k: int| 0 <= k < s0.len() ==> (#[trigger] s1[k]) == s0[k],
    ensures
        z_suspects_complete(c, swap, i, digits, s1),
{
    assert forall|k: int| 0 <= k < s0.len() implies s1.contains(#[trigger] s0[k]) by {
        assert(s1[k] == s0[k]);
    }
    lemma_z_complete_from_subset(c, swap, i, digits, s0, s1);
}

/// `z_suspects_complete` is the bounded completeness at every position.
proof fn lemma_z_upto_full(c: Circuit, swap: Seq<usize>, i: int, digits: int, s: Seq<usize>)
    requires
        z_complete_upto(c, swap, i, digits, s, digits + 1),
    ensures
        z_suspects_complete(c, swap, i, digits, s),
{
    assert forall|j: int|
        #![trigger bit_bad(c, swap, i, digits, j)]
        0 <= j <= digits && bit_bad(c, swap, i, digits, j) && c.spec_wire_id(
            fam_name(z_prefix(), j),
        ) is Some && !c.is_input_wire(c.spec_wire_id(fam_name(z_prefix(), j))->Some_0) && (exists|
            f: usize,
        |
            #[trigger] digit_input(c, i, f) && crate::reach::reaches(
                c,
                f,
                c.spec_wire_id(fam_name(z_prefix(), j))->Some_0 as usize,
            )) implies s.contains(
        c.spec_wire_id(fam_name(z_prefix(), j))->Some_0 as usize,
    ) by {
        assert(z_bit_due(c, swap, i, digits, j));
    }
}

/// Whether wire `w` is a primary-input wire of the circuit.
pub fn is_input_wire_exec(c: &Circuit, w: usize) -> (r: bool)
    ensures
        r == c.is_input_wire(w as int),
{
    let mut k: usize = 0;
    while k < c.inputs.len()
        invariant
            0 <= k <= c.inputs@.len(),
            forall|j: int| 0 <= j < k ==> (#[trigger] c.inputs@[j]).0 != w,
        decreases c.inputs@.len() - k,
    {
        if c.inputs[k].0 == w {
            proof {
                assert(0 <= k < c.inputs@.len() && (#[trigger] c.inputs@[k as int]).0 == w as int);
            }
            return true;
        }
        k = k + 1;
    }
    false
}

/// A suspect list: internal or output wires only, in range, no wire twice.
pub open spec fn suspects_ok(c: Circuit, s: Seq<usize>) -> bool {
    &&& forall|k: int|
        0 <= k < s.len() ==> (#[trigger] s[k]) < c.n() && !c.is_input_wire(s[k] as int)
    &&& forall|j: int, k: int| 0 <= j < k < s.len() ==> (#[trigger] s[j]) != (#[trigger] s[k])
}

/// Adds the non-primary wires of `path` to the suspect list, once each.
/// Every wire of `path` must satisfy the caller's link predicate, which the
/// grown list then satisfies throughout; the list grows by appending only,
/// and afterwards holds every non-primary wire of the path.
fn add_suspects(
    c: &Circuit,
    path: &Vec<usize>,
    mask: &mut Vec<bool>,
    suspects: &mut Vec<usize>,
    link: Ghost<spec_fn(usize) -> bool>,
)
    requires
        c.wf(),
        old(mask)@.len() == c.n(),
        forall|k: int| 0 <= k < path@.len() ==> (#[trigger] path@[k]) < c.n(),
        forall|k: int| 0 <= k < path@.len() ==> link@((#[trigger] path@[k])),
        suspects_ok(*c, old(suspects)@),
        forall|k: int| 0 <= k < old(suspects)@.len() ==> link@((#[trigger] old(suspects)@[k])),
        forall|k: int| 0 <= k < old(suspects)@.len() ==> old(mask)@[(#[trigger] old(suspects)@[k]) as int],
        forall|w: int| 0 <= w < c.n() && (#[trigger] old(mask)@[w]) ==> exists|k: int|
            0 <= k < old(suspects)@.len() && (#[trigger] old(suspects)@[k]) == w,
    ensures
        final(mask)@.len() == c.n(),
        suspects_ok(*c, final(suspects)@),
        forall|k: int| 0 <= k < final(suspects)@.len() ==> link@((#[trigger] final(suspects)@[k])),
        forall|k: int| 0 <= k < final(suspects)@.len() ==> final(mask)@[(#[trigger] final(suspects)@[k]) as int],
        forall|w: int| 0 <= w < c.n() && (#[trigger] final(mask)@[w]) ==> exists|k: int|
            0 <= k < final(suspects)@.len() && (#[trigger] final(suspects)@[k]) == w,
        old(suspects)@.len() <= final(suspects)@.len(),
        forall|k: int|
            0 <= k < old(suspects)@.len() ==> (#[trigger] final(suspects)@[k]) == old(suspects)@[k],
        forall|k: int|
            0 <= k < path@.len() && !c.is_input_wire((#[trigger] path@[k]) as int)
                ==> final(suspects)@.contains(path@[k]),
{
    let mut k: usize = 0;
    while k < path.len()
        invariant
            c.wf(),
            mask@.len() == c.n(),
            0 <= k <= path@.len(),
            forall|j: int| 0 <= j < path@.len() ==> (#[trigger] path@[j]) < c.n(),
            forall|j: int| 0 <= j < path@.len() ==> link@((#[trigger] path@[j])),
            suspects_ok(*c, suspects@),
            forall|j: int| 0 <= j < suspects@.len() ==> link@((#[trigger] suspects@[j])),
            forall|j: int| 0 <= j < suspects@.len() ==> mask@[(#[trigger] suspects@[j]) as int],
            forall|w: int| 0 <= w < c.n() && (#[trigger] mask@[w]) ==> exists|j: int|
                0 <= j < suspects@.len() && (#[trigger] suspects@[j]) == w,
            old(suspects)@.len() <= suspects@.len(),
            forall|j: int|
                0 <= j < old(suspects)@.len() ==> (#[trigger] suspects@[j]) == old(suspects)@[j],
            forall|j: int|
                0 <= j < k && !c.is_input_wire((#[trigger] path@[j]) as int) ==> mask@[path@[j] as int],
        decreases path@.len() - k,
    {
        let w = path[k];
        if !mask[w] {
            if !is_input_wire_exec(c, w) {
                let ghost mask0 = mask@;
                let ghost sus0 = suspects@;
                mask.set(w, true);
                suspects.push(w);
                proof {
                    assert forall|j1: int, j2: int|
                        0 <= j1 < j2 < suspects@.len() implies (#[trigger] suspects@[j1]) != (
                    #[trigger] suspects@[j2]) by {
                        if j2 == suspects@.len() - 1 {
                            assert(mask0[(sus0[j1]) as int]);
                        }
                    }
                    assert forall|ww: int| 0 <= ww < c.n() && (#[trigger] mask@[ww]) implies exists|
                        j: int,
                    |
                        0 <= j < suspects@.len() && (#[trigger] suspects@[j]) == ww by {
                        if ww == w as int {
                            assert(suspects@[suspects@.len() - 1] == w);
                        } else {
                            assert(mask0[ww]);
                            let j = choose|j: int|
                                0 <= j < sus0.len() && (#[trigger] sus0[j]) == ww;
                            assert(suspects@[j] == ww);
                        }
                    }
                }
            }
        }
        k = k + 1;
    }
    proof {
        assert forall|k2: int|
            0 <= k2 < path@.len() && !c.is_input_wire((#[trigger] path@[k2]) as int) implies suspects@.contains(
            path@[k2],
        ) by {
            assert(mask@[path@[k2] as int]);
            let j = choose|j: int|
                0 <= j < suspects@.len() && (#[trigger] suspects@[j]) == path@[k2] as int;
            assert(suspects@[j] == path@[k2]);
        }
    }
}

/// Runs the four canonical vectors for digit `digit` and reports the wrong
/// output bits' mismatch count, together with the suspect wires on paths from
/// the digit's inputs to each wrong output bit (primary inputs excluded).
///
/// The count is exactly `digit_errors`.  Every suspect lies on a line from
/// one of the digit's input wires to a wrong output bit (`linked_at`); every
/// wrong output bit's own wire is a suspect when it exists, is not primary,
/// and the digit's inputs reach it (`z_suspects_complete`); a clean digit has
/// no suspects.  An evaluator or codec failure is propagated unchanged.
#[verifier::rlimit(100)]
pub fn check_digit(c: &Circuit, digit: usize, digits: usize, swap: &Vec<usize>) -> (r: Result<
    (Vec<usize>, usize),
    CircuitError,
>)
    requires
        c.wf(),
        crate::eval::swap_wf(swap@, c.n()),
        digit < digits,
        digits <= 63,
    ensures
        match r {
            Ok(p) => digit_errors(*c, swap@, digit as int, digits as int) == Ok::<
                int,
                CircuitError,
            >(p.1 as int) && suspects_ok(*c, p.0@) && (forall|k: int|
                0 <= k < p.0@.len() ==> linked_at(
                    *c,
                    swap@,
                    digit as int,
                    digits as int,
                    #[trigger] p.0@[k],
                )) && z_suspects_complete(*c, swap@, digit as int, digits as int, p.0@) && (p.1
                == 0 ==> p.0@.len() == 0),
            Err(e) => digit_errors(*c, swap@, digit as int, digits as int) == Err::<
                int,
                CircuitError,
            >(e),
        },
{
    let mut total: usize = 0;
    let mut bad: Vec<bool> = Vec::new();
    let mut t: usize = 0;
    while t < digits + 1
        invariant
            0 <= t <= digits + 1,
            digits <= 63,
            bad@.len() == t,
            forall|t2: int| 0 <= t2 < t ==> !(#[trigger] bad@[t2]),
        decreases digits + 1 - t,
    {
        bad.push(false);
        t = t + 1;
    }
    let mut v: usize = 0;
    proof {
        assert forall|t2: int| 0 <= t2 <= digits implies ((#[trigger] bad@[t2]) <==> bit_bad_upto(
            *c,
            swap@,
            digit as int,
            digits as int,
            t2,
            0,
        )) by {}
    }
    while v < 4
        invariant
            c.wf(),
            crate::eval::swap_wf(swap@, c.n()),
            digit < digits,
            digits <= 63,
            0 <= v <= 4,
            bad@.len() == digits + 1,
            total <= v * (digits + 1),
            forall|t2: int|
                0 <= t2 <= digits ==> ((#[trigger] bad@[t2]) <==> bit_bad_upto(
                    *c,
                    swap@,
                    digit as int,
                    digits as int,
                    t2,
                    v as int,
                )),
            match errs_from(*c, swap@, digit as int, digits as int, v as int) {
                Ok(rem) => digit_errors(*c, swap@, digit as int, digits as int) == Ok::<
                    int,
                    CircuitError,
                >(total + rem),
                Err(e) => digit_errors(*c, swap@, digit as int, digits as int) == Err::<
                    int,
                    CircuitError,
                >(e),
            },
        decreases 4 - v,
    {
        let one: u64 = 1u64 << (digit as u64);
        let xv: u64 = if v == 1 || v == 3 {
            one
        } else {
            0
        };
        let yv: u64 = if v == 2 || v == 3 {
            one
        } else {
            0
        };
        let expected: u64 = if v == 0 {
            0
        } else if v == 3 {
            1u64 << ((digit + 1) as u64)
        } else {
            one
        };
        proof {
            assert(xv == vec_x(digit as int, v as int));
            assert(yv == vec_y(digit as int, v as int));
            assert(expected == vec_expected(digit as int, v as int));
        }
        let inputs = build_inputs(c, xv, yv, digits);
        let m = match evaluate(c, &inputs, swap) {
            Ok(m) => m,
            Err(e) => {
                return Err(e);
            },
        };
        let z = match crate::codec::encode_family(c, 122, &m) {
            Ok(z) => z,
            Err(e) => {
                return Err(e);
            },
        };
        let ghost bad0 = bad@;
        let mut cnt: usize = 0;
        let mut j: usize = 0;
        while j < digits + 1
            invariant
                c.wf(),
                digit < digits,
                digits <= 63,
                bad@.len() == digits + 1,
                bad0.len() == digits + 1,
                0 <= j <= digits + 1,
                cnt == mism_upto(*c, m@, expected, j as int),
                cnt <= j,
                expected == vec_expected(digit as int, v as int),
                eval_spec(
                    *c,
                    vec_inputs(
                        *c,
                        vec_x(digit as int, v as int),
                        vec_y(digit as int, v as int),
                        digits as int,
                    ),
                    swap@,
                ) == Ok::<_, CircuitError>(m@),
                forall|b: int|
                    0 <= b < 64 ==> #[trigger] u64_bit(z, b) == family_bit(
                        *c,
                        m@,
                        z_prefix(),
                        b,
                    ),
                forall|t2: int|
                    0 <= t2 <= digits ==> ((#[trigger] bad0[t2]) <==> bit_bad_upto(
                        *c,
                        swap@,
                        digit as int,
                        digits as int,
                        t2,
                        v as int,
                    )),
                forall|t2: int|
                    0 <= t2 <= digits ==> ((#[trigger] bad@[t2]) <==> (bad0[t2] || (t2 < j
                        && vec_mism(*c, swap@, digit as int, digits as int, v as int, t2)))),
            decreases digits + 1 - j,
        {
            let zb = (z >> (j as u64)) & 1 == 1;
            let eb = (expected >> (j as u64)) & 1 == 1;
            proof {
                assert(zb == u64_bit(z, j as int));
                assert(eb == u64_bit(expected, j as int));
                assert(vec_mism(*c, swap@, digit as int, digits as int, v as int, j as int) == (zb
                    != eb));
            }
            if zb != eb {
                cnt = cnt + 1;
                bad.set(j, true);
            }
            j = j + 1;
        }
        total = total + cnt;
        v = v + 1;
        proof {
            lemma_errs_from_bound(*c, swap@, digit as int, digits as int, v as int);
            lemma_mism_upto_bound(*c, m@, expected, digits + 1);
            assert forall|t2: int| 0 <= t2 <= digits implies ((#[trigger] bad@[t2])
                <==> bit_bad_upto(*c, swap@, digit as int, digits as int, t2, v as int)) by {
                lemma_bad_upto_step(*c, swap@, digit as int, digits as int, t2, v - 1);
            }
        }
    }
    // union the wires on paths from this digit's inputs to each wrong output
    let mut mask: Vec<bool> = Vec::new();
    let mut t2: usize = 0;
    let n = c.names.len();
    while t2 < n
        invariant
            0 <= t2 <= n,
            mask@.len() == t2,
            forall|w: int| 0 <= w < t2 ==> !(#[trigger] mask@[w]),
        decreases n - t2,
    {
        mask.push(false);
        t2 = t2 + 1;
    }
    let mut suspects: Vec<usize> = Vec::new();
    let name_x = make_fam_name(120, digit);
    let name_y = make_fam_name(121, digit);
    let xw = c.wire_id(name_x.as_slice());
    let yw = c.wire_id(name_y.as_slice());
    let ghost link: spec_fn(usize) -> bool = |w: usize|
        linked_at(*c, swap@, digit as int, digits as int, w);
    let mut j: usize = 0;
    while j < digits + 1
        invariant
            c.wf(),
            digit < digits,
            digits <= 63,
            bad@.len() == digits + 1,
            0 <= j <= digits + 1,
            mask@.len() == c.n(),
            link == (|w: usize| linked_at(*c, swap@, digit as int, digits as int, w)),
            match xw {
                Some(w) => w < c.n() && c.spec_wire_id(fam_name(x_prefix(), digit as int)) == Some(
                    w as int,
                ),
                None => c.spec_wire_id(fam_name(x_prefix(), digit as int)) is None,
            },
            match yw {
                Some(w) => w < c.n() && c.spec_wire_id(fam_name(y_prefix(), digit as int)) == Some(
                    w as int,
                ),
                None => c.spec_wire_id(fam_name(y_prefix(), digit as int)) is None,
            },
            forall|t3: int|
                0 <= t3 <= digits ==> ((#[trigger] bad@[t3]) <==> bit_bad(
                    *c,
                    swap@,
                    digit as int,
                    digits as int,
                    t3,
                )),
            suspects_ok(*c, suspects@),
            forall|k: int| 0 <= k < suspects@.len() ==> link((#[trigger] suspects@[k])),
            forall|k: int| 0 <= k < suspects@.len() ==> mask@[(#[trigger] suspects@[k]) as int],
            forall|w: int| 0 <= w < c.n() && (#[trigger] mask@[w]) ==> exists|k: int|
                0 <= k < suspects@.len() && (#[trigger] suspects@[k]) == w,
            z_complete_upto(*c, swap@, digit as int, digits as int, suspects@, j as int),
            (forall|t3: int| 0 <= t3 <= digits ==> !(#[trigger] bad@[t3])) ==> suspects@.len()
                == 0,
        decreases digits + 1 - j,
    {
        let ghost sus0 = suspects@;
        let mut z_held = false;
        if bad[j] {
            let name_z = make_fam_name(122, j);
            match c.wire_id(name_z.as_slice()) {
                Some(zw) => {
                    match xw {
                        Some(fw) => {
                            let path = crate::reach::shortest_path(c, fw, zw);
                            proof {
                                lemma_path_linked(
                                    *c,
                                    swap@,
                                    digit as int,
                                    digits as int,
                                    j as int,
                                    fw,
                                    zw,
                                    path@,
                                );
                            }
                            if path.len() > 0 {
                                z_held = true;
                            }
                            add_suspects(c, &path, &mut mask, &mut suspects, Ghost(link));
                            proof {
                                if path@.len() > 0 && !c.is_input_wire(zw as int) {
                                    assert(path@.last() == zw);
                                    assert(suspects@.contains(zw));
                                }
                            }
                        },
                        None => {},
                    }
                    let ghost sus1 = suspects@;
                    match yw {
                        Some(fw) => {
                            let path = crate::reach::shortest_path(c, fw, zw);
                            proof {
                                lemma_path_linked(
                                    *c,
                                    swap@,
                                    digit as int,
                                    digits as int,
                                    j as int,
                                    fw,
                                    zw,
                                    path@,
                                );
                            }
                            if path.len() > 0 {
                                z_held = true;
                            }
                            add_suspects(c, &path, &mut mask, &mut suspects, Ghost(link));
                            proof {
                                if path@.len() > 0 && !c.is_input_wire(zw as int) {
                                    assert(path@.last() == zw);
                                    assert(suspects@.contains(zw));
                                }
                            }
                        },
                        None => {},
                    }
                    proof {
                        // whichever input reached the wrong bit, its wire is
                        // now on the list
                        if z_held && !c.is_input_wire(zw as int) {
                            if !sus1.contains(zw) {
                            } else {
                                let k0 = choose|k0: int|
                                    0 <= k0 < sus1.len() && (#[trigger] sus1[k0]) == zw;
                                assert(suspects@[k0] == zw);
                            }
                            assert(suspects@.contains(zw));
                        }
                        if z_bit_due(*c, swap@, digit as int, digits as int, j as int) {
                            let f = choose|f: usize|
                                #[trigger] digit_input(*c, digit as int, f)
                                    && crate::reach::reaches(
                                    *c,
                                    f,
                                    c.spec_wire_id(
                                        fam_name(z_prefix(), j as int),
                                    )->Some_0 as usize,
                                );
                            assert(z_held);
                            assert(suspects@.contains(zw));
                        }
                        lemma_z_upto_mono(
                            *c,
                            swap@,
                            digit as int,
                            digits as int,
                            sus0,
                            suspects@,
                            j as int,
                        );
                        lemma_z_upto_extend(
                            *c,
                            swap@,
                            digit as int,
                            digits as int,
                            suspects@,
                            j as int,
                        );
                    }
                },
                None => {
                    proof {
                        assert(!z_bit_due(*c, swap@, digit as int, digits as int, j as int));
                        lemma_z_upto_extend(
                            *c,
                            swap@,
                            digit as int,
                            digits as int,
                            suspects@,
                            j as int,
                        );
                    }
                },
            }
        } else {
            proof {
                assert(!bit_bad(*c, swap@, digit as int, digits as int, j as int));
                assert(!z_bit_due(*c, swap@, digit as int, digits as int, j as int));
                lemma_z_upto_extend(*c, swap@, digit as int, digits as int, suspects@, j as int);
            }
        }
        j = j + 1;
    }
    proof {
        lemma_z_upto_full(*c, swap@, digit as int, digits as int, suspects@);
        // a clean digit leaves the suspect list empty
        if total == 0 {
            assert forall|t3: int| 0 <= t3 <= digits implies !(#[trigger] bad@[t3]) by {
                if bit_bad(*c, swap@, digit as int, digits as int, t3) {
                    lemma_bad_implies_errs(*c, swap@, digit as int, digits as int, t3, 0);
                }
            }
        }
    }
    Ok((suspects, total))
}

/// Every wire of a path from a digit's input wire to a wrong output bit's
/// wire is linked to that digit.
proof fn lemma_path_linked(
    c: Circuit,
    swap: Seq<usize>,
    i: int,
    digits: int,
    j: int,
    fw: usize,
    zw: usize,
    path: Seq<usize>,
)
    requires
        0 <= j <= digits,
        bit_bad(c, swap, i, digits, j),
        c.spec_wire_id(fam_name(z_prefix(), j)) == Some(zw as int),
        digit_input(c, i, fw),
        path.len() > 0 ==> crate::reach::is_path(c, path, fw, zw),
    ensures
        forall|k: int| 0 <= k < path.len() ==> linked_at(c, swap, i, digits, #[trigger] path[k]),
{
    assert forall|k: int| 0 <= k < path.len() implies linked_at(
        c,
        swap,
        i,
        digits,
        #[trigger] path[k],
    ) by {
        crate::reach::lemma_path_through(c, path, fw, zw, k);
        assert(bit_bad(c, swap, i, digits, j) && digit_input(c, i, fw));
        assert(crate::reach::reaches(c, path[k], c.spec_wire_id(fam_name(z_prefix(), j))->Some_0 as usize));
        assert(crate::reach::reaches(c, fw, path[k]));
    }
}

/// A digit's input family is connected to its output bit.
pub open spec fn conn_from(c: Circuit, p: u8, i: int) -> bool {
    &&& c.spec_wire_id(fam_name(p, i)) is Some
    &&& c.spec_wire_id(fam_name(z_prefix(), i)) is Some
    &&& crate::reach::reaches(
        c,
        c.spec_wire_id(fam_name(p, i))->Some_0 as usize,
        c.spec_wire_id(fam_name(z_prefix(), i))->Some_0 as usize,
    )
}

/// Some path leads from digit `i`'s `x` or `y` wire to its `z` wire.
pub open spec fn digit_connected(c: Circuit, i: int) -> bool {
    conn_from(c, x_prefix(), i) || conn_from(c, y_prefix(), i)
}

/// What `validate` computes from digit `i` on: `Disconnected` at the first
/// digit with no input-to-output path, else the first evaluator failure, else
/// the sum of all digits' mismatch counts.
pub open spec fn validate_from(c: Circuit, swap: Seq<usize>, digits: int, i: int) -> Result<
    int,
    CircuitError,
>
    decreases digits - i,
{
    if i >= digits {
        Ok(0)
    } else if !digit_connected(c, i) {
        Err(CircuitError::Disconnected)
    } else {
        match digit_errors(c, swap, i, digits) {
            Err(e) => Err(e),
            Ok(e) => match validate_from(c, swap, digits, i + 1) {
                Err(e2) => Err(e2),
                Ok(rest) => Ok(e + rest),
            },
        }
    }
}

/// What `validate` returns: the oracle over every digit.
pub open spec fn validate_spec(c: Circuit, swap: Seq<usize>, digits: int) -> Result<
    int,
    CircuitError,
> {
    validate_from(c, swap, digits, 0)
}

pub proof fn lemma_validate_from_bound(c: Circuit, swap: Seq<usize>, digits: int, i: int)
    requires
        0 <= i <= digits,
    ensures
        validate_from(c, swap, digits, i) matches Ok(e) ==> 0 <= e <= (digits - i) * 4 * (digits
            + 1),
    decreases digits - i,
{
    if i < digits {
        lemma_validate_from_bound(c, swap, digits, i + 1);
        if digit_errors(c, swap, i, digits) matches Ok(e) {
            lemma_errs_from_bound(c, swap, i, digits, 0);
            assert((digits - i) * 4 * (digits + 1) == (digits - (i + 1)) * 4 * (digits + 1) + 4 * (
            digits + 1)) by (nonlinear_arith);
        }
    }
}

/// Runs `check_digit` for every digit, unions the suspect sets and sums the
/// error counts; fails fast with `Disconnected` at the first digit whose
/// input wires have no path at all to its output wire.
///
/// The count is exactly `validate_spec`.  Every suspect lies on a line from
/// some digit's input wires to one of its wrong output bits (`linked_any`);
/// for every digit, the wrong output bits' own wires are suspects when they
/// exist, are not primary, and the digit's inputs reach them
/// (`z_suspects_complete`); a clean circuit has no suspects.
#[verifier::rlimit(100)]
pub fn validate(c: &Circuit, swap: &Vec<usize>, digits: usize) -> (r: Result<
    (Vec<usize>, usize),
    CircuitError,
>)
    requires
        c.wf(),
        crate::eval::swap_wf(swap@, c.n()),
        digits <= 63,
    ensures
        match r {
            Ok(p) => validate_spec(*c, swap@, digits as int) == Ok::<int, CircuitError>(
                p.1 as int,
            ) && suspects_ok(*c, p.0@) && (forall|k: int|
                0 <= k < p.0@.len() ==> linked_any(
                    *c,
                    swap@,
                    digits as int,
                    #[trigger] p.0@[k],
                )) && (forall|i: int|
                0 <= i < digits ==> #[trigger] z_suspects_complete(
                    *c,
                    swap@,
                    i,
                    digits as int,
                    p.0@,
                )) && (p.1 == 0 ==> p.0@.len() == 0),
            Err(e) => validate_spec(*c, swap@, digits as int) == Err::<int, CircuitError>(e),
        },
{
    let mut total: usize = 0;
    let mut mask: Vec<bool> = Vec::new();
    let n = c.names.len();
    let mut t: usize = 0;
    while t < n
        invariant
            0 <= t <= n,
            mask@.len() == t,
            forall|w: int| 0 <= w < t ==> !(#[trigger] mask@[w]),
        decreases n - t,
    {
        mask.push(false);
        t = t + 1;
    }
    let mut suspects: Vec<usize> = Vec::new();
    let ghost link: spec_fn(usize) -> bool = |w: usize|
        linked_any(*c, swap@, digits as int, w);
    let mut i: usize = 0;
    while i < digits
        invariant
            c.wf(),
            crate::eval::swap_wf(swap@, c.n()),
            digits <= 63,
            0 <= i <= digits,
            total <= i * 4 * (digits + 1),
            mask@.len() == c.n(),
            link == (|w: usize| linked_any(*c, swap@, digits as int, w)),
            suspects_ok(*c, suspects@),
            forall|k: int| 0 <= k < suspects@.len() ==> link((#[trigger] suspects@[k])),
            forall|k: int| 0 <= k < suspects@.len() ==> mask@[(#[trigger] suspects@[k]) as int],
            forall|w: int| 0 <= w < c.n() && (#[trigger] mask@[w]) ==> exists|k: int|
                0 <= k < suspects@.len() && (#[trigger] suspects@[k]) == w,
            forall|i0: int|
                0 <= i0 < i ==> #[trigger] z_suspects_complete(
                    *c,
                    swap@,
                    i0,
                    digits as int,
                    suspects@,
                ),
            total == 0 ==> suspects@.len() == 0,
            match validate_from(*c, swap@, digits as int, i as int) {
                Ok(rem) => validate_spec(*c, swap@, digits as int) == Ok::<int, CircuitError>(
                    total + rem,
                ),
                Err(e) => validate_spec(*c, swap@, digits as int) == Err::<int, CircuitError>(e),
            },
        decreases digits - i,
    {
        // connectivity first: a missing path is beyond repair by swaps
        let name_x = make_fam_name(120, i);
        let name_y = make_fam_name(121, i);
        let name_z = make_fam_name(122, i);
        let xw = c.wire_id(name_x.as_slice());
        let yw = c.wire_id(name_y.as_slice());
        let zw = c.wire_id(name_z.as_slice());
        let mut connected = false;
        match (xw, zw) {
            (Some(fw), Some(tw)) => {
                let path = crate::reach::shortest_path(c, fw, tw);
                if path.len() > 0 {
                    connected = true;
                    proof {
                        assert(conn_from(*c, x_prefix(), i as int));
                    }
                }
            },
            _ => {},
        }
        if !connected {
            match (yw, zw) {
                (Some(fw), Some(tw)) => {
                    let path = crate::reach::shortest_path(c, fw, tw);
                    if path.len() > 0 {
                        connected = true;
                        proof {
                            assert(conn_from(*c, y_prefix(), i as int));
                        }
                    }
                },
                _ => {},
            }
        }
        if !connected {
            proof {
                assert(!digit_connected(*c, i as int));
            }
            return Err(CircuitError::Disconnected);
        }
        let (dsus, derr) = match check_digit(c, i, digits, swap) {
            Ok(p) => p,
            Err(e) => {
                return Err(e);
            },
        };
        proof {
            lemma_errs_from_bound(*c, swap@, i as int, digits as int, 0);
            assert(derr as int <= 4 * (digits + 1));
            assert(i as int * 4 * (digits as int + 1) <= 63 * 4 * 64) by (nonlinear_arith)
                requires
                    0 <= i as int <= 63,
                    0 <= digits as int <= 63,
            {}
            assert((i as int + 1) * 4 * (digits as int + 1) == i as int * 4 * (digits as int + 1)
                + 4 * (digits as int + 1)) by (nonlinear_arith);
            // a digit's suspects are linked to the whole run
            assert forall|k: int| 0 <= k < dsus@.len() implies link(#[trigger] dsus@[k]) by {
                assert(linked_at(*c, swap@, i as int, digits as int, dsus@[k]));
            }
        }
        total = total + derr;
        let ghost sus_before = suspects@;
        add_suspects_list(c, &dsus, &mut mask, &mut suspects, Ghost(link));
        proof {
            // earlier digits' wrong output wires stay on the grown list, and
            // this digit's came over from its own check
            assert forall|i0: int|
                0 <= i0 < i + 1 implies #[trigger] z_suspects_complete(
                *c,
                swap@,
                i0,
                digits as int,
                suspects@,
            ) by {
                if i0 < i {
                    lemma_z_complete_mono(*c, swap@, i0, digits as int, sus_before, suspects@);
                } else {
                    lemma_z_complete_from_subset(*c, swap@, i0, digits as int, dsus@, suspects@);
                }
            }
            if total == 0 {
                assert(derr == 0);
                assert(dsus@.len() == 0);
                assert(suspects@ == sus_before);
            }
        }
        i = i + 1;
    }
    Ok((suspects, total))
}

/// Adds a digit's suspect wires to the overall suspect list, once each/// Adds a digit's suspect wires to the overall suspect list, once each,
/// appending only; every added wire must satisfy the caller's link
/// predicate, and the grown list keeps satisfying it and holds every wire of
/// `add`.  An empty addition changes nothing.
fn add_suspects_list(
    c: &Circuit,
    add: &Vec<usize>,
    mask: &mut Vec<bool>,
    suspects: &mut Vec<usize>,
    link: Ghost<spec_fn(usize) -> bool>,
)
    requires
        c.wf(),
        old(mask)@.len() == c.n(),
        suspects_ok(*c, add@),
        forall|k: int| 0 <= k < add@.len() ==> link@((#[trigger] add@[k])),
        suspects_ok(*c, old(suspects)@),
        forall|k: int| 0 <= k < old(suspects)@.len() ==> link@((#[trigger] old(suspects)@[k])),
        forall|k: int| 0 <= k < old(suspects)@.len() ==> old(mask)@[(#[trigger] old(suspects)@[k]) as int],
        forall|w: int| 0 <= w < c.n() && (#[trigger] old(mask)@[w]) ==> exists|k: int|
            0 <= k < old(suspects)@.len() && (#[trigger] old(suspects)@[k]) == w,
    ensures
        final(mask)@.len() == c.n(),
        suspects_ok(*c, final(suspects)@),
        forall|k: int| 0 <= k < final(suspects)@.len() ==> link@((#[trigger] final(suspects)@[k])),
        forall|k: int| 0 <= k < final(suspects)@.len() ==> final(mask)@[(#[trigger] final(suspects)@[k]) as int],
        forall|w: int| 0 <= w < c.n() && (#[trigger] final(mask)@[w]) ==> exists|k: int|
            0 <= k < final(suspects)@.len() && (#[trigger] final(suspects)@[k]) == w,
        old(suspects)@.len() <= final(suspects)@.len(),
        forall|k: int|
            0 <= k < old(suspects)@.len() ==> (#[trigger] final(suspects)@[k]) == old(suspects)@[k],
        forall|k: int| 0 <= k < add@.len() ==> final(suspects)@.contains(#[trigger] add@[k]),
        add@.len() == 0 ==> final(suspects)@ == old(suspects)@,
{
    let mut k: usize = 0;
    while k < add.len()
        invariant
            c.wf(),
            mask@.len() == c.n(),
            0 <= k <= add@.len(),
            suspects_ok(*c, add@),
            forall|j: int| 0 <= j < add@.len() ==> link@((#[trigger] add@[j])),
            suspects_ok(*c, suspects@),
            forall|j: int| 0 <= j < suspects@.len() ==> link@((#[trigger] suspects@[j])),
            forall|j: int| 0 <= j < suspects@.len() ==> mask@[(#[trigger] suspects@[j]) as int],
            forall|w: int| 0 <= w < c.n() && (#[trigger] mask@[w]) ==> exists|j: int|
                0 <= j < suspects@.len() && (#[trigger] suspects@[j]) == w,
            old(suspects)@.len() <= suspects@.len(),
            forall|j: int|
                0 <= j < old(suspects)@.len() ==> (#[trigger] suspects@[j]) == old(suspects)@[j],
            forall|j: int| 0 <= j < k ==> mask@[(#[trigger] add@[j]) as int],
            k == 0 ==> suspects@ == old(suspects)@,
        decreases add@.len() - k,
    {
        let w = add[k];
        if !mask[w] {
            let ghost mask0 = mask@;
            let ghost sus0 = suspects@;
            mask.set(w, true);
            suspects.push(w);
            proof {
                assert forall|j1: int, j2: int|
                    0 <= j1 < j2 < suspects@.len() implies (#[trigger] suspects@[j1]) != (
                #[trigger] suspects@[j2]) by {
                    if j2 == suspects@.len() - 1 {
                        assert(mask0[(sus0[j1]) as int]);
                    }
                }
                assert forall|ww: int| 0 <= ww < c.n() && (#[trigger] mask@[ww]) implies exists|
                    j: int,
                |
                    0 <= j < suspects@.len() && (#[trigger] suspects@[j]) == ww by {
                    if ww == w as int {
                        assert(suspects@[suspects@.len() - 1] == w);
                    } else {
                        assert(mask0[ww]);
                        let j = choose|j: int| 0 <= j < sus0.len() && (#[trigger] sus0[j]) == ww;
                        assert(suspects@[j] == ww);
                    }
                }
            }
        }
        k = k + 1;
    }
    proof {
        assert forall|k2: int| 0 <= k2 < add@.len() implies suspects@.contains(
            #[trigger] add@[k2],
        ) by {
            assert(mask@[add@[k2] as int]);
            let j = choose|j: int|
                0 <= j < suspects@.len() && (#[trigger] suspects@[j]) == add@[k2] as int;
            assert(suspects@[j] == add@[k2]);
        }
    }
}

/// The two-digit name's suffix reads back its digit.
proof fn lemma_fam_name_val(prefix: u8, k: int)
    requires
        0 <= k < 100,
    ensures
        suffix_ok(fam_name(prefix, k)),
        suffix_val(fam_name(prefix, k)) == k,
{
    let name = fam_name(prefix, k);
    let sfx = name.skip(1);
    assert(sfx =~= seq![(48 + k / 10) as u8, (48 + k % 10) as u8]);
    let hd = seq![(48 + k / 10) as u8];
    assert(sfx.drop_last() =~= hd);
    assert(hd.drop_last() =~= Seq::<u8>::empty());
    assert(dec_val(Seq::<u8>::empty()) == 0);
    assert(0 <= k / 10 <= 9 && 0 <= k % 10 <= 9);
    assert(hd.last() == (48 + k / 10) as u8);
    assert(dec_val(hd) == 0 * 10 + (((48 + k / 10) as u8) - 48));
    assert(dec_val(hd) == k / 10);
    assert(sfx.last() == (48 + k % 10) as u8);
    assert(dec_val(sfx) == dec_val(hd) * 10 + (((48 + k % 10) as u8) - 48));
    assert(dec_val(sfx) == (k / 10) * 10 + k % 10);
    assert(k == 10 * (k / 10) + k % 10);
}

/// Encoding: bit `k` of the packed family equals the value of the wire named
/// `{prefix}{k:02}` when it exists and 0 when it does not -- provided the
/// family's wires all carry such canonical two-digit names.
pub proof fn lemma_encode_bit_is_wire(
    c: Circuit,
    m: Seq<Option<bool>>,
    prefix: u8,
    k: int,
    v: u64,
)
    requires
        c.wf(),
        m.len() == c.n(),
        0 <= k < 64,
        // canonical names: every family wire is `{prefix}{suffix:02}`
        forall|w: int|
            0 <= w < c.n() && crate::codec::in_family((#[trigger] c.names@[w])@, prefix) ==> (
            c.names@[w])@ == fam_name(prefix, suffix_val(c.names@[w]@)) && 0 <= suffix_val(
                c.names@[w]@,
            ) < 64,
        // what `encode_family` ensures of its result
        forall|b: int| 0 <= b < 64 ==> #[trigger] u64_bit(v, b) == family_bit(c, m, prefix, b),
    ensures
        u64_bit(v, k) == match c.spec_wire_id(fam_name(prefix, k)) {
            Some(w) => m[w] == Some(true),
            None => false,
        },
{
    lemma_fam_name_val(prefix, k);
    if u64_bit(v, k) {
        let w = choose|w: int|
            0 <= w < c.n() && crate::codec::in_family((#[trigger] c.names@[w])@, prefix)
                && suffix_ok(c.names@[w]@) && suffix_val(c.names@[w]@) == k && m[w] == Some(true);
        assert((c.names@[w])@ == fam_name(prefix, k));
        c.lemma_wire_id_unique(fam_name(prefix, k), w);
    } else {
        match c.spec_wire_id(fam_name(prefix, k)) {
            Some(w) => {
                assert(exists|i: int|
                    0 <= i < c.n() && (#[trigger] c.names@[i])@ == fam_name(prefix, k));
                let i = choose|i: int|
                    0 <= i < c.n() && (#[trigger] c.names@[i])@ == fam_name(prefix, k);
                assert(w == i);
                assert(crate::codec::in_family((c.names@[i])@, prefix)) by {
                    assert(fam_name(prefix, k)[0] == prefix);
                }
                if m[w] == Some(true) {
                    assert(family_bit(c, m, prefix, k)) by {
                        assert(0 <= i < c.n() && crate::codec::in_family(
                            (#[trigger] c.names@[i])@,
                            prefix,
                        ) && suffix_ok(c.names@[i]@) && suffix_val(c.names@[i]@) == k && m[i]
                            == Some(true));
                    }
                }
            },
            None => {},
        }
    }
}

} // verus!
