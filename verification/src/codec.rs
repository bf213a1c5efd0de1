//! The numeric codec: packing a named bit-family (all wires sharing a
//! one-byte prefix, with a decimal suffix) into an unsigned integer, bit `k`
//! taken from the wire whose suffix reads `k`.  Absent or unassigned bits
//! are 0; two suffixes reading the same number are combined with OR.

use vstd::prelude::*;

use crate::circuit::{Circuit, CircuitError};
use crate::util::{all_digits, dec_val};

verus! {

/// Bit `b` of `v`.
pub open spec fn u64_bit(v: u64, b: int) -> bool {
    0 <= b < 64 && (v >> (b as u64)) & 1 == 1
}

/// The wire name belongs to the family of `prefix`.
pub open spec fn in_family(name: Seq<u8>, prefix: u8) -> bool {
    name.len() >= 1 && name[0] == prefix
}

/// The name has a nonempty all-digit suffix.
pub open spec fn suffix_ok(name: Seq<u8>) -> bool {
    name.len() >= 2 && all_digits(name.skip(1))
}

/// The numeric value of the name's suffix.
pub open spec fn suffix_val(name: Seq<u8>) -> int {
    dec_val(name.skip(1))
}

/// Every wire of the family has a numeric suffix naming a `u64` bit.
pub open spec fn family_ok(c: Circuit, prefix: u8) -> bool {
    forall|w: int|
        0 <= w < c.n() && in_family((#[trigger] c.names@[w])@, prefix) ==> suffix_ok(c.names@[w]@)
            && suffix_val(c.names@[w]@) < 64
}

/// Some family wire with suffix `b` holds `true` in `m`.
pub open spec fn family_bit(c: Circuit, m: Seq<Option<bool>>, prefix: u8, b: int) -> bool {
    exists|w: int|
        0 <= w < c.n() && in_family((#[trigger] c.names@[w])@, prefix) && suffix_ok(c.names@[w]@)
            && suffix_val(c.names@[w]@) == b && m[w] == Some(true)
}

/// As `family_bit`, over the first `upto` wires only.
pub open spec fn family_bit_upto(
    c: Circuit,
    m: Seq<Option<bool>>,
    prefix: u8,
    b: int,
    upto: int,
) -> bool {
    exists|w: int|
        0 <= w < upto && in_family((#[trigger] c.names@[w])@, prefix) && suffix_ok(c.names@[w]@)
            && suffix_val(c.names@[w]@) == b && m[w] == Some(true)
}

proof fn lemma_u64_bit_zero(b: int)
    requires
        0 <= b < 64,
    ensures
        !u64_bit(0, b),
{
    let bu = b as u64;
    assert((0u64 >> bu) & 1 == 0) by (bit_vector);
}

proof fn lemma_u64_bit_or(x: u64, s: u64, b: int)
    requires
        s < 64,
        0 <= b < 64,
    ensures
        u64_bit(x | (1u64 << s), b) == (u64_bit(x, b) || b == s),
{
    let bu = b as u64;
    assert(bu < 64);
    assert(((x | (1u64 << s)) >> bu) & 1 == if bu == s {
        1u64
    } else {
        (x >> bu) & 1
    }) by (bit_vector)
        requires
            s < 64,
            bu < 64,
    ;
}

/// Packs the family of `prefix` into an integer: bit `k` is the value of the
/// wire whose suffix reads `k` (0 if absent or unassigned; OR if repeated).
///
/// Fails with `Format` exactly when some family wire has a suffix that is not
/// a number below 64.
pub fn encode_family(c: &Circuit, prefix: u8, m: &Vec<Option<bool>>) -> (r: Result<
    u64,
    CircuitError,
>)
    requires
        m@.len() == c.n(),
    ensures
        match r {
            Ok(v) => family_ok(*c, prefix) && forall|b: int|
                0 <= b < 64 ==> #[trigger] u64_bit(v, b) == family_bit(*c, m@, prefix, b),
            Err(e) => e == CircuitError::Format && !family_ok(*c, prefix),
        },
{
    let mut acc: u64 = 0;
    let mut w: usize = 0;
    proof {
        assert forall|b: int| 0 <= b < 64 implies #[trigger] u64_bit(acc, b) == family_bit_upto(
            *c,
            m@,
            prefix,
            b,
            0,
        ) by {
            lemma_u64_bit_zero(b);
        }
    }
    while w < c.names.len()
        invariant
            m@.len() == c.n(),
            0 <= w <= c.names@.len(),
            forall|ww: int|
                0 <= ww < w && in_family((#[trigger] c.names@[ww])@, prefix) ==> suffix_ok(
                    c.names@[ww]@,
                ) && suffix_val(c.names@[ww]@) < 64,
            forall|b: int|
                0 <= b < 64 ==> #[trigger] u64_bit(acc, b) == family_bit_upto(
                    *c,
                    m@,
                    prefix,
                    b,
                    w as int,
                ),
        decreases c.names@.len() - w,
    {
        let name = &c.names[w];
        let ghost acc0 = acc;
        if name.len() >= 1 && name[0] == prefix {
            if name.len() < 2 {
                return Err(CircuitError::Format);
            }
            let suffix = vstd::slice::slice_subrange(name.as_slice(), 1, name.len());
            let v = match crate::util::parse_u64(suffix) {
                Some(v) => v,
                None => {
                    proof {
                        if all_digits(name@.skip(1)) {
                            crate::util::lemma_dec_val_bounds(name@.skip(1));
                        }
                    }
                    return Err(CircuitError::Format);
                },
            };
            if v >= 64 {
                return Err(CircuitError::Format);
            }
            let set_bit = match m[w] {
                Some(true) => true,
                _ => false,
            };
            if set_bit {
                acc = acc | (1u64 << v);
                proof {
                    assert forall|b: int| 0 <= b < 64 implies #[trigger] u64_bit(acc, b) == (
                    u64_bit(acc0, b) || b == v as int) by {
                        lemma_u64_bit_or(acc0, v, b);
                    }
                }
            }
            proof {
                assert forall|b: int| 0 <= b < 64 implies #[trigger] u64_bit(acc, b)
                    == family_bit_upto(*c, m@, prefix, b, w + 1) by {
                    if set_bit && b == v as int {
                        assert(0 <= w < w + 1 && in_family((c.names@[w as int])@, prefix)
                            && suffix_ok(c.names@[w as int]@) && suffix_val(c.names@[w as int]@)
                            == b && m@[w as int] == Some(true));
                    } else {
                        if family_bit_upto(*c, m@, prefix, b, w + 1) {
                            let ww = choose|ww: int|
                                0 <= ww < w + 1 && in_family((#[trigger] c.names@[ww])@, prefix)
                                    && suffix_ok(c.names@[ww]@) && suffix_val(c.names@[ww]@) == b
                                    && m@[ww] == Some(true);
                            assert(ww < w);
                        }
                        if family_bit_upto(*c, m@, prefix, b, w as int) {
                            let ww = choose|ww: int|
                                0 <= ww < w && in_family((#[trigger] c.names@[ww])@, prefix)
                                    && suffix_ok(c.names@[ww]@) && suffix_val(c.names@[ww]@) == b
                                    && m@[ww] == Some(true);
                            assert(0 <= ww < w + 1 && in_family((c.names@[ww])@, prefix)
                                && suffix_ok(c.names@[ww]@) && suffix_val(c.names@[ww]@) == b
                                && m@[ww] == Some(true));
                        }
                    }
                }
            }
        } else {
            proof {
                assert forall|b: int| 0 <= b < 64 implies family_bit_upto(*c, m@, prefix, b, w + 1)
                    == family_bit_upto(*c, m@, prefix, b, w as int) by {
                    if family_bit_upto(*c, m@, prefix, b, w + 1) {
                        let ww = choose|ww: int|
                            0 <= ww < w + 1 && in_family((#[trigger] c.names@[ww])@, prefix)
                                && suffix_ok(c.names@[ww]@) && suffix_val(c.names@[ww]@) == b
                                && m@[ww] == Some(true);
                        assert(ww < w);
                    }
                    if family_bit_upto(*c, m@, prefix, b, w as int) {
                        let ww = choose|ww: int|
                            0 <= ww < w && in_family((#[trigger] c.names@[ww])@, prefix)
                                && suffix_ok(c.names@[ww]@) && suffix_val(c.names@[ww]@) == b
                                && m@[ww] == Some(true);
                        assert(0 <= ww < w + 1 && in_family((c.names@[ww])@, prefix) && suffix_ok(
                            c.names@[ww]@,
                        ) && suffix_val(c.names@[ww]@) == b && m@[ww] == Some(true));
                    }
                }
            }
        }
        w = w + 1;
    }
    proof {
        assert forall|b: int| 0 <= b < 64 implies #[trigger] u64_bit(acc, b) == family_bit(
            *c,
            m@,
            prefix,
            b,
        ) by {
            assert(u64_bit(acc, b) == family_bit_upto(*c, m@, prefix, b, c.n()));
            if family_bit_upto(*c, m@, prefix, b, c.n()) {
                let ww = choose|ww: int|
                    0 <= ww < c.n() && in_family((#[trigger] c.names@[ww])@, prefix) && suffix_ok(
                        c.names@[ww]@,
                    ) && suffix_val(c.names@[ww]@) == b && m@[ww] == Some(true);
                assert(family_bit(*c, m@, prefix, b));
            }
            if family_bit(*c, m@, prefix, b) {
                let ww = choose|ww: int|
                    0 <= ww < c.n() && in_family((#[trigger] c.names@[ww])@, prefix) && suffix_ok(
                        c.names@[ww]@,
                    ) && suffix_val(c.names@[ww]@) == b && m@[ww] == Some(true);
                assert(family_bit_upto(*c, m@, prefix, b, c.n()));
            }
        }
    }
    Ok(acc)
}

} // verus!
