//! Byte-level text utilities shared by the solvers: line splitting,
//! whitespace splitting and decimal number parsing, each specified exactly
//! over byte sequences.

use vstd::prelude::*;

verus! {

/// Whitespace bytes: space, tab, carriage return, line feed.
pub open spec fn is_ws(b: u8) -> bool {
    b == 32 || b == 9 || b == 13 || b == 10
}

/// Decimal digit bytes `'0'..='9'`.
pub open spec fn is_digit(b: u8) -> bool {
    48 <= b && b <= 57
}

/// Views of a sequence of byte vectors.
pub open spec fn bytes_view(v: Seq<Vec<u8>>) -> Seq<Seq<u8>> {
    v.map_values(|x: Vec<u8>| x@)
}

/// Index of the first occurrence of `b` in `s`, or `s.len()` if absent.
pub open spec fn find_byte(s: Seq<u8>, b: u8) -> int
    decreases s.len(),
{
    if s.len() == 0 {
        0
    } else if s[0] == b {
        0
    } else {
        1 + find_byte(s.skip(1), b)
    }
}

pub proof fn lemma_find_byte(s: Seq<u8>, b: u8)
    ensures
        0 <= find_byte(s, b) <= s.len(),
        find_byte(s, b) < s.len() ==> s[find_byte(s, b)] == b,
        forall|k: int| 0 <= k < find_byte(s, b) ==> s[k] != b,
    decreases s.len(),
{
    if s.len() > 0 && s[0] != b {
        lemma_find_byte(s.skip(1), b);
        assert forall|k: int| 0 <= k < find_byte(s, b) implies s[k] != b by {
            if k > 0 {
                assert(s.skip(1)[k - 1] == s[k]);
            }
        }
    }
}

/// `find_byte` is pinned down by its characteristic properties.
pub proof fn lemma_find_byte_is(s: Seq<u8>, b: u8, j: int)
    requires
        0 <= j <= s.len(),
        j < s.len() ==> s[j] == b,
        forall|k: int| 0 <= k < j ==> s[k] != b,
    ensures
        find_byte(s, b) == j,
    decreases s.len(),
{
    if s.len() > 0 && s[0] != b {
        assert(j >= 1);
        assert forall|k: int| 0 <= k < j - 1 implies s.skip(1)[k] != b by {
            assert(s.skip(1)[k] == s[k + 1]);
        }
        assert(j - 1 < s.skip(1).len() ==> s.skip(1)[j - 1] == b);
        lemma_find_byte_is(s.skip(1), b, j - 1);
    }
}

/// A line piece with a trailing carriage return removed.
pub open spec fn strip_cr(s: Seq<u8>) -> Seq<u8> {
    if s.len() > 0 && s.last() == 13 {
        s.drop_last()
    } else {
        s
    }
}

/// The lines of `s`, split on line feeds, each with a trailing carriage
/// return removed; a final empty piece after a trailing line feed is omitted.
pub open spec fn lines_of(s: Seq<u8>) -> Seq<Seq<u8>>
    decreases s.len(),
{
    if s.len() == 0 {
        Seq::empty()
    } else {
        let i = find_byte(s, 10);
        if 0 <= i < s.len() {
            seq![strip_cr(s.take(i))] + lines_of(s.skip(i + 1))
        } else {
            seq![strip_cr(s)]
        }
    }
}

/// Splits `s` into its lines.
pub fn split_lines(s: &[u8]) -> (r: Vec<Vec<u8>>)
    ensures
        bytes_view(r@) == lines_of(s@),
{
    let mut out: Vec<Vec<u8>> = Vec::new();
    let mut pos: usize = 0;
    proof {
        assert(s@.skip(0) =~= s@);
        assert(bytes_view(out@) =~= Seq::<Seq<u8>>::empty());
        assert(bytes_view(out@) + lines_of(s@) =~= lines_of(s@));
    }
    while pos < s.len()
        invariant
            0 <= pos <= s@.len(),
            lines_of(s@) == bytes_view(out@) + lines_of(s@.skip(pos as int)),
        decreases s@.len() - pos,
    {
        let ghost rest = s@.skip(pos as int);
        proof {
            lemma_find_byte(rest, 10);
        }
        // scan to the next line feed
        let mut j: usize = pos;
        while j < s.len() && s[j] != 10
            invariant
                pos <= j <= s@.len(),
                forall|k: int| pos <= k < j ==> s@[k] != 10,
            decreases s@.len() - j,
        {
            j = j + 1;
        }
        proof {
            assert forall|k: int| 0 <= k < j - pos implies rest[k] != 10 by {
                assert(rest[k] == s@[pos + k]);
            }
            assert(j - pos < rest.len() ==> rest[j - pos] == s@[j as int] && s@[j as int] == 10);
            lemma_find_byte_is(rest, 10, j - pos);
        }
        // extract the piece, dropping a trailing carriage return
        let mut piece: Vec<u8> = Vec::new();
        let end = if j > pos && s[j - 1] == 13 {
            j - 1
        } else {
            j
        };
        let mut k: usize = pos;
        while k < end
            invariant
                pos <= k <= end <= s@.len(),
                piece@ == s@.subrange(pos as int, k as int),
            decreases end - k,
        {
            piece.push(s[k]);
            k = k + 1;
        }
        proof {
            let i = find_byte(rest, 10);
            assert(i == j - pos);
            lemma_find_byte(rest, 10);
            if i == rest.len() {
                assert(rest == s@.skip(pos as int));
                assert(rest =~= s@.subrange(pos as int, s@.len() as int));
                if rest.len() > 0 && rest.last() == 13 {
                    assert(piece@ =~= rest.drop_last());
                } else {
                    assert(piece@ =~= rest);
                }
                assert(lines_of(rest) == seq![strip_cr(rest)]);
                assert(lines_of(s@.skip(s@.len() as int)) =~= Seq::<Seq<u8>>::empty());
            } else {
                assert(rest.take(i) =~= s@.subrange(pos as int, j as int));
                if i > 0 && rest.take(i).last() == 13 {
                    assert(piece@ =~= rest.take(i).drop_last());
                } else {
                    assert(piece@ =~= rest.take(i));
                }
                assert(rest.skip(i + 1) =~= s@.skip(j + 1));
            }
        }
        out.push(piece);
        proof {
            assert(bytes_view(out@) =~= bytes_view(out@.drop_last()) + seq![out@.last()@]);
        }
        if j < s.len() {
            pos = j + 1;
        } else {
            pos = j;
            assert(bytes_view(out@) + lines_of(s@.skip(pos as int)) =~= bytes_view(out@));
        }
        proof {
            assert(lines_of(s@) =~= bytes_view(out@) + lines_of(s@.skip(pos as int)));
        }
    }
    proof {
        assert(s@.skip(pos as int) =~= Seq::<u8>::empty());
        assert(lines_of(s@) =~= bytes_view(out@));
    }
    out
}

/// Index of the first whitespace byte in `s`, or `s.len()` if absent.
pub open spec fn find_ws(s: Seq<u8>) -> int
    decreases s.len(),
{
    if s.len() == 0 {
        0
    } else if is_ws(s[0]) {
        0
    } else {
        1 + find_ws(s.skip(1))
    }
}

pub proof fn lemma_find_ws(s: Seq<u8>)
    ensures
        0 <= find_ws(s) <= s.len(),
        find_ws(s) < s.len() ==> is_ws(s[find_ws(s)]),
        forall|k: int| 0 <= k < find_ws(s) ==> !is_ws(s[k]),
    decreases s.len(),
{
    if s.len() > 0 && !is_ws(s[0]) {
        lemma_find_ws(s.skip(1));
        assert forall|k: int| 0 <= k < find_ws(s) implies !is_ws(s[k]) by {
            if k > 0 {
                assert(s.skip(1)[k - 1] == s[k]);
            }
        }
    }
}

pub proof fn lemma_find_ws_is(s: Seq<u8>, j: int)
    requires
        0 <= j <= s.len(),
        j < s.len() ==> is_ws(s[j]),
        forall|k: int| 0 <= k < j ==> !is_ws(s[k]),
    ensures
        find_ws(s) == j,
    decreases s.len(),
{
    if s.len() > 0 && !is_ws(s[0]) {
        assert(j >= 1);
        assert forall|k: int| 0 <= k < j - 1 implies !is_ws(s.skip(1)[k]) by {
            assert(s.skip(1)[k] == s[k + 1]);
        }
        assert(j - 1 < s.skip(1).len() ==> is_ws(s.skip(1)[j - 1]));
        lemma_find_ws_is(s.skip(1), j - 1);
    }
}

/// The maximal non-whitespace pieces of `s`, in order.
pub open spec fn split_ws(s: Seq<u8>) -> Seq<Seq<u8>>
    decreases s.len(),
{
    if s.len() == 0 {
        Seq::empty()
    } else if is_ws(s[0]) {
        split_ws(s.skip(1))
    } else {
        let i = find_ws(s);
        if 1 <= i <= s.len() {
            seq![s.take(i)] + split_ws(s.skip(i))
        } else {
            seq![s]
        }
    }
}

proof fn lemma_split_ws_unfold(s: Seq<u8>)
    requires
        s.len() > 0,
        !is_ws(s[0]),
    ensures
        1 <= find_ws(s) <= s.len(),
        split_ws(s) == seq![s.take(find_ws(s))] + split_ws(s.skip(find_ws(s))),
{
    lemma_find_ws(s);
    lemma_find_ws(s.skip(1));
}

/// Splits `s` on whitespace, as `str::split_whitespace` does.
pub fn split_whitespace_bytes(s: &[u8]) -> (r: Vec<Vec<u8>>)
    ensures
        bytes_view(r@) == split_ws(s@),
{
    let mut out: Vec<Vec<u8>> = Vec::new();
    let mut pos: usize = 0;
    proof {
        assert(s@.skip(0) =~= s@);
        assert(bytes_view(out@) =~= Seq::<Seq<u8>>::empty());
        assert(bytes_view(out@) + split_ws(s@) =~= split_ws(s@));
    }
    while pos < s.len()
        invariant
            0 <= pos <= s@.len(),
            split_ws(s@) == bytes_view(out@) + split_ws(s@.skip(pos as int)),
        decreases s@.len() - pos,
    {
        let b = s[pos];
        if b == 32 || b == 9 || b == 13 || b == 10 {
            proof {
                assert(s@.skip(pos as int)[0] == s@[pos as int]);
                assert(s@.skip(pos as int).skip(1) =~= s@.skip(pos + 1));
            }
            pos = pos + 1;
        } else {
            let ghost rest = s@.skip(pos as int);
            let mut j: usize = pos;
            while j < s.len() && !(s[j] == 32 || s[j] == 9 || s[j] == 13 || s[j] == 10)
                invariant
                    pos <= j <= s@.len(),
                    forall|k: int| pos <= k < j ==> !is_ws(s@[k]),
                decreases s@.len() - j,
            {
                j = j + 1;
            }
            proof {
                assert forall|k: int| 0 <= k < j - pos implies !is_ws(rest[k]) by {
                    assert(rest[k] == s@[pos + k]);
                }
                assert(j - pos < rest.len() ==> rest[j - pos] == s@[j as int] && is_ws(s@[j as int]));
                lemma_find_ws_is(rest, j - pos);
            }
            let mut piece: Vec<u8> = Vec::new();
            let mut k: usize = pos;
            while k < j
                invariant
                    pos <= k <= j <= s@.len(),
                    piece@ == s@.subrange(pos as int, k as int),
                decreases j - k,
            {
                piece.push(s[k]);
                k = k + 1;
            }
            proof {
                assert(rest[0] == s@[pos as int]);
                lemma_find_ws(rest);
                lemma_split_ws_unfold(rest);
                assert(rest.take(j - pos) =~= s@.subrange(pos as int, j as int));
                assert(rest.skip(j - pos) =~= s@.skip(j as int));
            }
            out.push(piece);
            proof {
                assert(bytes_view(out@) =~= bytes_view(out@.drop_last()) + seq![out@.last()@]);
            }
            pos = j;
            proof {
                assert(split_ws(s@) =~= bytes_view(out@) + split_ws(s@.skip(pos as int)));
            }
        }
    }
    proof {
        assert(s@.skip(pos as int) =~= Seq::<u8>::empty());
        assert(split_ws(s@) =~= bytes_view(out@));
    }
    out
}

/// Value of a string of decimal digits.
pub open spec fn dec_val(s: Seq<u8>) -> int
    decreases s.len(),
{
    if s.len() == 0 {
        0
    } else {
        dec_val(s.drop_last()) * 10 + (s.last() - 48)
    }
}

pub open spec fn all_digits(s: Seq<u8>) -> bool {
    forall|k: int| 0 <= k < s.len() ==> is_digit(s[k])
}

pub proof fn lemma_dec_val_bounds(s: Seq<u8>)
    requires
        all_digits(s),
    ensures
        0 <= dec_val(s),
        s.len() > 0 ==> dec_val(s) <= dec_val(s.drop_last()) * 10 + 9,
    decreases s.len(),
{
    if s.len() > 0 {
        assert(forall|k: int| 0 <= k < s.drop_last().len() ==> s.drop_last()[k] == s[k]);
        lemma_dec_val_bounds(s.drop_last());
    }
}

/// Any digit prefix is worth no more than the whole digit string.
pub proof fn lemma_dec_val_prefix(s: Seq<u8>, i: int)
    requires
        all_digits(s),
        0 <= i <= s.len(),
    ensures
        dec_val(s.take(i)) <= dec_val(s),
    decreases s.len() - i,
{
    if i < s.len() {
        lemma_dec_val_prefix(s, i + 1);
        let t = s.take(i + 1);
        assert(t.drop_last() =~= s.take(i));
        assert(forall|k: int| 0 <= k < t.len() ==> t[k] == s[k]);
        lemma_dec_val_bounds(t.drop_last());
        assert(dec_val(t) == dec_val(s.take(i)) * 10 + (s[i] - 48));
        assert(dec_val(s.take(i)) <= dec_val(t));
    } else {
        assert(s.take(i) =~= s);
    }
}

/// Parses a string of decimal digits as a `u64`.
/// Returns `Some` exactly on nonempty all-digit strings whose value fits.
pub fn parse_u64(s: &[u8]) -> (r: Option<u64>)
    ensures
        match r {
            Some(v) => s@.len() > 0 && all_digits(s@) && dec_val(s@) == v,
            None => s@.len() == 0 || !all_digits(s@) || dec_val(s@) > u64::MAX,
        },
{
    if s.len() == 0 {
        return None;
    }
    let mut acc: u64 = 0;
    let mut i: usize = 0;
    while i < s.len()
        invariant
            0 <= i <= s@.len(),
            all_digits(s@.take(i as int)),
            acc == dec_val(s@.take(i as int)),
        decreases s@.len() - i,
    {
        let b = s[i];
        if !(48 <= b && b <= 57) {
            return None;
        }
        let d = b - 48;
        if acc > (u64::MAX - (d as u64)) / 10 {
            proof {
                let t = s@.take(i + 1);
                assert(t.drop_last() =~= s@.take(i as int));
                assert(t.last() == s@[i as int]);
                assert(dec_val(t) == acc * 10 + d);
                assert(acc * 10 + d > u64::MAX) by (nonlinear_arith)
                    requires
                        acc > (u64::MAX - (d as u64)) / 10,
                        0 <= d <= 9,
                {}
                if all_digits(s@) {
                    assert(forall|k: int| 0 <= k < t.len() ==> t[k] == s@[k]);
                    lemma_dec_val_prefix(s@, i + 1);
                }
            }
            return None;
        }
        proof {
            assert(acc * 10 + d <= u64::MAX) by (nonlinear_arith)
                requires
                    acc <= (u64::MAX - (d as u64)) / 10,
                    0 <= d <= 9,
            {}
            let t = s@.take(i + 1);
            assert(t.drop_last() =~= s@.take(i as int));
            assert(t.last() == s@[i as int]);
            assert(all_digits(t));
        }
        acc = acc * 10 + (d as u64);
        i = i + 1;
    }
    proof {
        assert(s@.take(i as int) =~= s@);
    }
    Some(acc)
}

/// Signed decimal integer: an optional leading minus sign, then digits.
pub open spec fn int_wf(s: Seq<u8>) -> bool {
    if s.len() > 0 && s[0] == 45 {
        s.len() > 1 && all_digits(s.skip(1))
    } else {
        s.len() > 0 && all_digits(s)
    }
}

pub open spec fn int_val(s: Seq<u8>) -> int {
    if s.len() > 0 && s[0] == 45 {
        -dec_val(s.skip(1))
    } else {
        dec_val(s)
    }
}

/// Parses a signed decimal integer as an `i64`.
/// Returns `Some` exactly on well-formed strings whose value fits.
pub fn parse_i64(s: &[u8]) -> (r: Option<i64>)
    ensures
        match r {
            Some(v) => int_wf(s@) && int_val(s@) == v,
            None => !int_wf(s@) || int_val(s@) < i64::MIN || int_val(s@) > i64::MAX,
        },
{
    if s.len() > 0 && s[0] == 45 {
        let rest = vstd::slice::slice_subrange(s, 1, s.len());
        match parse_u64(rest) {
            Some(v) => {
                if v > 9223372036854775808u64 {
                    proof {
                        lemma_dec_val_bounds(s@.skip(1));
                    }
                    None
                } else if v == 9223372036854775808u64 {
                    Some(i64::MIN)
                } else {
                    Some(-(v as i64))
                }
            },
            None => {
                proof {
                    if int_wf(s@) {
                        lemma_dec_val_bounds(s@.skip(1));
                    }
                }
                None
            },
        }
    } else {
        match parse_u64(s) {
            Some(v) => {
                if v > i64::MAX as u64 {
                    None
                } else {
                    Some(v as i64)
                }
            },
            None => {
                proof {
                    if int_wf(s@) {
                        lemma_dec_val_bounds(s@);
                    }
                }
                None
            },
        }
    }
}

/// The sequence without leading whitespace.
pub open spec fn trim_start(s: Seq<u8>) -> Seq<u8>
    decreases s.len(),
{
    if s.len() > 0 && is_ws(s[0]) {
        trim_start(s.skip(1))
    } else {
        s
    }
}

/// The sequence without trailing whitespace.
pub open spec fn trim_end(s: Seq<u8>) -> Seq<u8>
    decreases s.len(),
{
    if s.len() > 0 && is_ws(s.last()) {
        trim_end(s.drop_last())
    } else {
        s
    }
}

/// The sequence without leading and trailing whitespace.
pub open spec fn trim_spec(s: Seq<u8>) -> Seq<u8> {
    trim_end(trim_start(s))
}

proof fn lemma_trim_start_is(s: Seq<u8>, a: int)
    requires
        0 <= a <= s.len(),
        forall|k: int| 0 <= k < a ==> is_ws(s[k]),
        a < s.len() ==> !is_ws(s[a]),
    ensures
        trim_start(s) == s.skip(a),
    decreases a,
{
    if a == 0 {
        assert(s.skip(0) =~= s);
    } else {
        assert(is_ws(s[0]));
        assert forall|k: int| 0 <= k < a - 1 implies is_ws(s.skip(1)[k]) by {
            assert(s.skip(1)[k] == s[k + 1]);
        }
        assert(a - 1 < s.skip(1).len() ==> !is_ws(s.skip(1)[a - 1]));
        lemma_trim_start_is(s.skip(1), a - 1);
        assert(s.skip(1).skip(a - 1) =~= s.skip(a));
    }
}

proof fn lemma_trim_end_is(s: Seq<u8>, b: int)
    requires
        0 <= b <= s.len(),
        forall|k: int| b <= k < s.len() ==> is_ws(s[k]),
        b > 0 ==> !is_ws(s[b - 1]),
    ensures
        trim_end(s) == s.take(b),
    decreases s.len() - b,
{
    if b == s.len() {
        assert(s.take(b) =~= s);
    } else {
        assert(is_ws(s.last()));
        assert(forall|k: int| 0 <= k < s.drop_last().len() ==> s.drop_last()[k] == s[k]);
        lemma_trim_end_is(s.drop_last(), b);
        assert(s.drop_last().take(b) =~= s.take(b));
    }
}

/// Strips leading and trailing whitespace.
pub fn trim_bytes(s: &[u8]) -> (r: Vec<u8>)
    ensures
        r@ == trim_spec(s@),
{
    let mut a: usize = 0;
    while a < s.len() && (s[a] == 32 || s[a] == 9 || s[a] == 13 || s[a] == 10)
        invariant
            0 <= a <= s@.len(),
            forall|k: int| 0 <= k < a ==> is_ws(s@[k]),
        decreases s@.len() - a,
    {
        a = a + 1;
    }
    proof {
        lemma_trim_start_is(s@, a as int);
    }
    let mut b: usize = s.len();
    while b > a && (s[b - 1] == 32 || s[b - 1] == 9 || s[b - 1] == 13 || s[b - 1] == 10)
        invariant
            a <= b <= s@.len(),
            forall|k: int| 0 <= k < a ==> is_ws(s@[k]),
            forall|k: int| b <= k < s@.len() ==> is_ws(s@[k]),
        decreases b,
    {
        b = b - 1;
    }
    let mut r: Vec<u8> = Vec::new();
    let mut k: usize = a;
    while k < b
        invariant
            a <= k <= b <= s@.len(),
            r@ == s@.subrange(a as int, k as int),
        decreases b - k,
    {
        r.push(s[k]);
        k = k + 1;
    }
    proof {
        let ts = s@.skip(a as int);
        assert forall|k2: int| b - a <= k2 < ts.len() implies is_ws(ts[k2]) by {
            assert(ts[k2] == s@[a + k2]);
        }
        if b > a {
            assert(ts[b - a - 1] == s@[b - 1]);
            assert(!is_ws(ts[b - a - 1]));
        }
        lemma_trim_end_is(ts, b - a);
        assert(ts.take(b - a) =~= s@.subrange(a as int, b as int));
        assert(r@ =~= s@.subrange(a as int, b as int));
    }
    r
}

/// A vector's view never outgrows `usize`.
pub proof fn lemma_vec_len_bound<T>(v: Vec<T>)
    ensures
        v@.len() <= usize::MAX,
{
    assert(vstd::std_specs::vec::spec_vec_len(&v) == v@.len());
}

} // verus!
