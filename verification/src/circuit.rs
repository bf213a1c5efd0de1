//! The circuit model: named boolean wires, two-input AND/OR/XOR gates, and an
//! assignment of values to primary-input wires.
//!
//! A circuit is built once from a two-section text (wire values, then gates)
//! and is immutable afterwards.  Wire names are interned: every name is held
//! once in `names`, and gates and inputs refer to wires by index.
//!
//! Line grammar (wire names may not contain `:` or whitespace):
//! - value lines: `<wire>: <0|1>`;
//! - gate lines: `<wireA> <AND|OR|XOR> <wireB> -> <outWire>`.

use vstd::prelude::*;

use crate::util::{
    bytes_view, find_byte, lemma_find_byte, lines_of, split_lines, split_whitespace_bytes,
    split_ws,
};

verus! {

/// A two-input boolean operator.
#[derive(Clone, Copy, PartialEq, Eq, Structural, Debug)]
pub enum Op {
    And,
    Or,
    Xor,
}

/// A gate: `names[i1] op names[i2] -> names[out]`.
#[derive(Clone, Copy, PartialEq, Eq, Structural, Debug)]
pub struct Gate {
    pub i1: usize,
    pub op: Op,
    pub i2: usize,
    pub out: usize,
}

/// Everything that can go wrong while building, evaluating or diagnosing a
/// circuit.
#[derive(Clone, Copy, PartialEq, Eq, Structural, Debug)]
pub enum CircuitError {
    /// A malformed line, or a family wire whose numeric suffix is missing or
    /// does not name a representable bit position.
    Format,
    /// Two gates declare the same output wire.
    DuplicateOutput,
    /// The stall bound tripped: a cyclic or dangling dependency.
    Unresolvable,
    /// A swap produced two gates with the same effective output.
    OutputCollision,
    /// No path at all from an input family to an output bit.
    Disconnected,
}

/// An immutable circuit: interned wire names, gates, and primary-input values.
pub struct Circuit {
    pub names: Vec<Vec<u8>>,
    pub gates: Vec<Gate>,
    pub inputs: Vec<(usize, bool)>,
}

impl Circuit {
    /// Number of wires.
    pub open spec fn n(self) -> int {
        self.names@.len() as int
    }

    /// Well-formed: all indices in range, names unique, each wire the output
    /// of at most one gate, each input wire assigned at most once.
    pub open spec fn wf(self) -> bool {
        &&& forall|k: int|
            0 <= k < self.gates@.len() ==> (#[trigger] self.gates@[k]).i1 < self.n()
                && self.gates@[k].i2 < self.n() && self.gates@[k].out < self.n()
        &&& forall|j: int, k: int|
            0 <= j < k < self.gates@.len() ==> (#[trigger] self.gates@[j]).out != (
            #[trigger] self.gates@[k]).out
        &&& forall|k: int| 0 <= k < self.inputs@.len() ==> (#[trigger] self.inputs@[k]).0 < self.n()
        &&& forall|j: int, k: int|
            0 <= j < k < self.inputs@.len() ==> (#[trigger] self.inputs@[j]).0 != (
            #[trigger] self.inputs@[k]).0
        &&& forall|j: int, k: int|
            0 <= j < k < self.names@.len() ==> (#[trigger] self.names@[j])@ != (
            #[trigger] self.names@[k])@
    }

    /// The wire id carrying `name`, if any (names are unique).
    pub open spec fn spec_wire_id(self, name: Seq<u8>) -> Option<int> {
        if exists|i: int| 0 <= i < self.n() && (#[trigger] self.names@[i])@ == name {
            Some(choose|i: int| 0 <= i < self.n() && (#[trigger] self.names@[i])@ == name)
        } else {
            None
        }
    }

    /// Whether wire `w` is a primary-input wire (it is assigned a value).
    pub open spec fn is_input_wire(self, w: int) -> bool {
        exists|k: int| 0 <= k < self.inputs@.len() && (#[trigger] self.inputs@[k]).0 == w
    }

    /// With unique names, `spec_wire_id` is pinned by any matching index.
    pub proof fn lemma_wire_id_unique(self, name: Seq<u8>, i: int)
        requires
            self.wf(),
            0 <= i < self.n(),
            (self.names@[i])@ == name,
        ensures
            self.spec_wire_id(name) == Some(i),
    {
        assert(0 <= i < self.n() && (#[trigger] self.names@[i])@ == name);
        let j = choose|k: int| 0 <= k < self.n() && (#[trigger] self.names@[k])@ == name;
        if j < i {
            assert((self.names@[j])@ != (self.names@[i])@);
        } else if j > i {
            assert((self.names@[i])@ != (self.names@[j])@);
        }
    }

    /// Looks a wire up by name.
    pub fn wire_id(&self, name: &[u8]) -> (r: Option<usize>)
        requires
            self.wf(),
        ensures
            match r {
                Some(i) => 0 <= i < self.n() && self.names@[i as int]@ == name@
                    && self.spec_wire_id(name@) == Some(i as int),
                None => self.spec_wire_id(name@) is None,
            },
    {
        let mut i: usize = 0;
        while i < self.names.len()
            invariant
                self.wf(),
                0 <= i <= self.names@.len(),
                forall|j: int| 0 <= j < i ==> (#[trigger] self.names@[j])@ != name@,
            decreases self.names@.len() - i,
        {
            if bytes_eq(self.names[i].as_slice(), name) {
                proof {
                    self.lemma_wire_id_unique(name@, i as int);
                }
                return Some(i);
            }
            i = i + 1;
        }
        None
    }
}

/// Byte-string equality.
pub fn bytes_eq(a: &[u8], b: &[u8]) -> (r: bool)
    ensures
        r <==> a@ == b@,
{
    if a.len() != b.len() {
        return false;
    }
    let mut i: usize = 0;
    while i < a.len()
        invariant
            0 <= i <= a@.len(),
            a@.len() == b@.len(),
            forall|j: int| 0 <= j < i ==> a@[j] == b@[j],
        decreases a@.len() - i,
    {
        if a[i] != b[i] {
            return false;
        }
        i = i + 1;
    }
    proof {
        assert(a@ =~= b@);
    }
    true
}

/// Spec of `Op` as its text.
pub open spec fn op_bytes(op: Op) -> Seq<u8> {
    match op {
        Op::And => seq![65u8, 78u8, 68u8],
        Op::Or => seq![79u8, 82u8],
        Op::Xor => seq![88u8, 79u8, 82u8],
    }
}

/// The operator named by `p`, if any.
pub open spec fn op_of(p: Seq<u8>) -> Option<Op> {
    if p == op_bytes(Op::And) {
        Some(Op::And)
    } else if p == op_bytes(Op::Or) {
        Some(Op::Or)
    } else if p == op_bytes(Op::Xor) {
        Some(Op::Xor)
    } else {
        None
    }
}

/// Parses an operator name.
pub fn parse_op(p: &[u8]) -> (r: Option<Op>)
    ensures
        r == op_of(p@),
{
    if p.len() == 3 && p[0] == 65 && p[1] == 78 && p[2] == 68 {
        proof {
            assert(p@ =~= op_bytes(Op::And));
        }
        Some(Op::And)
    } else if p.len() == 2 && p[0] == 79 && p[1] == 82 {
        proof {
            assert(p@ =~= op_bytes(Op::Or));
        }
        Some(Op::Or)
    } else if p.len() == 3 && p[0] == 88 && p[1] == 79 && p[2] == 82 {
        proof {
            assert(p@ =~= op_bytes(Op::Xor));
        }
        Some(Op::Xor)
    } else {
        proof {
            if p@ == op_bytes(Op::And) {
                assert(p@.len() == 3 && p@[0] == 65 && p@[1] == 78 && p@[2] == 68);
            }
            if p@ == op_bytes(Op::Or) {
                assert(p@.len() == 2 && p@[0] == 79 && p@[1] == 82);
            }
            if p@ == op_bytes(Op::Xor) {
                assert(p@.len() == 3 && p@[0] == 88 && p@[1] == 79 && p@[2] == 82);
            }
        }
        None
    }
}

/// A well-formed value line: `<wire>: <0|1>` with a nonempty, colon-free name.
pub open spec fn init_line_ok(l: Seq<u8>) -> bool {
    let i = find_byte(l, 58);
    &&& 1 <= i
    &&& i + 3 == l.len()
    &&& l[i + 1] == 32
    &&& (l[i + 2] == 48 || l[i + 2] == 49)
}

/// The name on a well-formed value line.
pub open spec fn init_line_name(l: Seq<u8>) -> Seq<u8> {
    l.take(find_byte(l, 58))
}

/// The bit on a well-formed value line.
pub open spec fn init_line_val(l: Seq<u8>) -> bool {
    l[find_byte(l, 58) + 2] == 49
}

/// Parses a value line.
pub fn parse_init_line(l: &[u8]) -> (r: Option<(Vec<u8>, bool)>)
    ensures
        match r {
            Some(p) => init_line_ok(l@) && p.0@ == init_line_name(l@) && p.1 == init_line_val(l@),
            None => !init_line_ok(l@),
        },
{
    proof {
        lemma_find_byte(l@, 58);
    }
    let mut i: usize = 0;
    while i < l.len() && l[i] != 58
        invariant
            0 <= i <= l@.len(),
            forall|k: int| 0 <= k < i ==> l@[k] != 58,
        decreases l@.len() - i,
    {
        i = i + 1;
    }
    proof {
        crate::util::lemma_find_byte_is(l@, 58, i as int);
    }
    if i < 1 || l.len() < 3 || i != l.len() - 3 {
        return None;
    }
    if l[i + 1] != 32 {
        return None;
    }
    let b = l[i + 2];
    if b != 48 && b != 49 {
        return None;
    }
    let mut name: Vec<u8> = Vec::new();
    let mut k: usize = 0;
    while k < i
        invariant
            0 <= k <= i <= l@.len(),
            name@ == l@.subrange(0, k as int),
        decreases i - k,
    {
        name.push(l[k]);
        k = k + 1;
    }
    proof {
        assert(name@ =~= init_line_name(l@));
    }
    Some((name, b == 49))
}

/// A well-formed gate line: exactly the pieces `<a> <op> <b> -> <out>`.
pub open spec fn gate_line_ok(l: Seq<u8>) -> bool {
    let p = split_ws(l);
    &&& p.len() == 5
    &&& op_of(p[1]) is Some
    &&& p[3] == seq![45u8, 62u8]
}

/// The pieces of a gate line: left input, operator, right input, output.
pub open spec fn gate_line_parts(l: Seq<u8>) -> (Seq<u8>, Op, Seq<u8>, Seq<u8>) {
    let p = split_ws(l);
    (p[0], op_of(p[1])->Some_0, p[2], p[4])
}

/// Parses a gate line.
pub fn parse_gate_line(l: &[u8]) -> (r: Option<(Vec<u8>, Op, Vec<u8>, Vec<u8>)>)
    ensures
        match r {
            Some(p) => gate_line_ok(l@) && {
                let (a, op, b, o) = gate_line_parts(l@);
                p.0@ == a && p.1 == op && p.2@ == b && p.3@ == o
            },
            None => !gate_line_ok(l@),
        },
{
    let mut pieces = split_whitespace_bytes(l);
    if pieces.len() != 5 {
        return None;
    }
    let op = match parse_op(pieces[1].as_slice()) {
        Some(op) => op,
        None => {
            return None;
        },
    };
    let arrow: [u8; 2] = [45, 62];
    if !bytes_eq(pieces[3].as_slice(), arrow.as_slice()) {
        return None;
    }
    proof {
        assert(arrow@ =~= seq![45u8, 62u8]);
        assert(bytes_view(pieces@)[0] == pieces@[0]@);
        assert(bytes_view(pieces@)[1] == pieces@[1]@);
        assert(bytes_view(pieces@)[2] == pieces@[2]@);
        assert(bytes_view(pieces@)[3] == pieces@[3]@);
        assert(bytes_view(pieces@)[4] == pieces@[4]@);
    }
    let o = pieces.pop().unwrap();
    let _arrow = pieces.pop().unwrap();
    let b = pieces.pop().unwrap();
    let _op = pieces.pop().unwrap();
    let a = pieces.pop().unwrap();
    Some((a, op, b, o))
}

/// Index of the first empty line, or `ls.len()` if none.
pub open spec fn find_empty(ls: Seq<Seq<u8>>) -> int
    decreases ls.len(),
{
    if ls.len() == 0 {
        0
    } else if ls[0].len() == 0 {
        0
    } else {
        1 + find_empty(ls.skip(1))
    }
}

pub proof fn lemma_find_empty_is(ls: Seq<Seq<u8>>, j: int)
    requires
        0 <= j <= ls.len(),
        j < ls.len() ==> ls[j].len() == 0,
        forall|k: int| 0 <= k < j ==> (#[trigger] ls[k]).len() != 0,
    ensures
        find_empty(ls) == j,
    decreases ls.len(),
{
    if ls.len() > 0 && ls[0].len() != 0 {
        assert(j >= 1);
        assert forall|k: int| 0 <= k < j - 1 implies (#[trigger] ls.skip(1)[k]).len() != 0 by {
            assert(ls.skip(1)[k] == ls[k + 1]);
        }
        assert(j - 1 < ls.skip(1).len() ==> ls.skip(1)[j - 1].len() == 0);
        lemma_find_empty_is(ls.skip(1), j - 1);
    }
}

/// Number of value lines: everything before the first empty line.
pub open spec fn n_init_lines(ls: Seq<Seq<u8>>) -> int {
    if find_empty(ls) <= ls.len() {
        find_empty(ls)
    } else {
        ls.len() as int
    }
}

/// Number of gate lines: everything after the first empty line.
pub open spec fn n_gate_lines(ls: Seq<Seq<u8>>) -> int {
    if find_empty(ls) < ls.len() {
        ls.len() - find_empty(ls) - 1
    } else {
        0
    }
}

/// Well-formed circuit text: value lines with pairwise distinct wire names,
/// then an empty line, then gate lines (that section may be absent).
pub open spec fn text_wf(s: Seq<u8>) -> bool {
    let ls = lines_of(s);
    let k = find_empty(ls);
    &&& forall|j: int| 0 <= j < n_init_lines(ls) ==> init_line_ok(#[trigger] ls[j])
    &&& forall|j1: int, j2: int|
        0 <= j1 < j2 < n_init_lines(ls) ==> init_line_name(#[trigger] ls[j1]) != init_line_name(
            #[trigger] ls[j2])
    &&& forall|j: int| k < j < ls.len() ==> gate_line_ok(#[trigger] ls[j])
}

/// Two gate lines declare the same output wire.
pub open spec fn dup_out(s: Seq<u8>) -> bool {
    let ls = lines_of(s);
    let k = find_empty(ls);
    exists|j1: int, j2: int|
        k < j1 < j2 < ls.len() && gate_line_parts(#[trigger] ls[j1]).3 == gate_line_parts(
            #[trigger] ls[j2]).3
}

/// The built circuit reflects the text: inputs in value-line order (wire ids
/// `0..inputs.len()`), gates in gate-line order, names interned.
pub open spec fn circuit_matches(c: Circuit, s: Seq<u8>) -> bool {
    let ls = lines_of(s);
    let k = find_empty(ls);
    &&& c.inputs@.len() == n_init_lines(ls)
    &&& forall|j: int|
        0 <= j < n_init_lines(ls) ==> (#[trigger] c.inputs@[j]).0 == j && (c.names@[j])@
            == init_line_name(ls[j]) && c.inputs@[j].1 == init_line_val(ls[j])
    &&& c.gates@.len() == n_gate_lines(ls)
    &&& forall|j: int|
        0 <= j < n_gate_lines(ls) ==> {
            let (a, op, b, o) = gate_line_parts(ls[k + 1 + j]);
            let g = #[trigger] c.gates@[j];
            (c.names@[g.i1 as int])@ == a && g.op == op && (c.names@[g.i2 as int])@ == b && (
            c.names@[g.out as int])@ == o
        }
}

/// Uniqueness of a name table.
pub open spec fn names_unique(ns: Seq<Vec<u8>>) -> bool {
    forall|j: int, k: int| 0 <= j < k < ns.len() ==> (#[trigger] ns[j])@ != (#[trigger] ns[k])@
}

/// Interns `name`: returns the id of an equal existing name, or appends it.
fn intern(names: &mut Vec<Vec<u8>>, name: &[u8]) -> (id: usize)
    requires
        names_unique(old(names)@),
    ensures
        names_unique(final(names)@),
        old(names)@.len() <= final(names)@.len() <= old(names)@.len() + 1,
        forall|j: int| 0 <= j < old(names)@.len() ==> final(names)@[j] == old(names)@[j],
        id < final(names)@.len(),
        (final(names)@[id as int])@ == name@,
{
    let mut i: usize = 0;
    while i < names.len()
        invariant
            names@ == old(names)@,
            names_unique(names@),
            0 <= i <= names@.len(),
            forall|j: int| 0 <= j < i ==> (#[trigger] names@[j])@ != name@,
        decreases names@.len() - i,
    {
        if bytes_eq(names[i].as_slice(), name) {
            return i;
        }
        i = i + 1;
    }
    let mut owned: Vec<u8> = Vec::new();
    let mut k: usize = 0;
    while k < name.len()
        invariant
            0 <= k <= name@.len(),
            owned@ == name@.subrange(0, k as int),
        decreases name@.len() - k,
    {
        owned.push(name[k]);
        k = k + 1;
    }
    proof {
        assert(owned@ =~= name@);
    }
    names.push(owned);
    proof {
        assert forall|j: int, k2: int| 0 <= j < k2 < names@.len() implies (#[trigger] names@[j])@
            != (#[trigger] names@[k2])@ by {
            if k2 == names@.len() - 1 {
                assert((names@[k2])@ == name@);
            }
        }
    }
    names.len() - 1
}

/// Builds a circuit from its two-section text.
///
/// Fails with `Format` exactly when some line is malformed or a value-line
/// wire name repeats; otherwise fails with `DuplicateOutput` exactly when two
/// gate lines declare the same output wire.
pub fn parse_circuit(s: &[u8]) -> (r: Result<Circuit, CircuitError>)
    ensures
        match r {
            Ok(c) => text_wf(s@) && !dup_out(s@) && c.wf() && circuit_matches(c, s@),
            Err(e) => (e == CircuitError::Format && !text_wf(s@)) || (e
                == CircuitError::DuplicateOutput && text_wf(s@) && dup_out(s@)),
        },
{
    let ls = split_lines(s);
    let ghost lsv = lines_of(s@);
    proof {
        assert(bytes_view(ls@) == lsv);
        assert(bytes_view(ls@).len() == ls@.len());
    }
    // find the section separator
    let mut sep: usize = 0;
    while sep < ls.len() && ls[sep].len() != 0
        invariant
            0 <= sep <= ls@.len(),
            bytes_view(ls@) == lsv,
            forall|k: int| 0 <= k < sep ==> (#[trigger] lsv[k]).len() != 0,
        decreases ls@.len() - sep,
    {
        proof {
            assert(lsv[sep as int] == ls@[sep as int]@);
        }
        sep = sep + 1;
    }
    proof {
        assert(sep < ls@.len() ==> lsv[sep as int] == ls@[sep as int]@ && lsv[sep as int].len()
            == 0);
        lemma_find_empty_is(lsv, sep as int);
        assert(n_init_lines(lsv) == sep as int);
    }
    // first section: wire values; wire ids are 0.. in line order
    let mut names: Vec<Vec<u8>> = Vec::new();
    let mut inputs: Vec<(usize, bool)> = Vec::new();
    let mut j: usize = 0;
    while j < sep
        invariant
            0 <= j <= sep <= ls@.len(),
            bytes_view(ls@) == lsv,
            lsv == lines_of(s@),
            n_init_lines(lsv) == sep as int,
            find_empty(lsv) == sep as int,
            names@.len() == j,
            inputs@.len() == j,
            names_unique(names@),
            forall|jj: int|
                0 <= jj < j ==> init_line_ok(#[trigger] lsv[jj]) && (names@[jj])@ == init_line_name(
                    lsv[jj]),
            forall|jj: int|
                0 <= jj < j ==> (#[trigger] inputs@[jj]).0 == jj && inputs@[jj].1 == init_line_val(
                    lsv[jj]),
        decreases sep - j,
    {
        proof {
            assert(lsv[j as int] == ls@[j as int]@);
        }
        match parse_init_line(ls[j].as_slice()) {
            Some((name, v)) => {
                // a repeated wire name in the value section is malformed
                let mut dup = false;
                let mut t: usize = 0;
                while t < names.len()
                    invariant
                        0 <= t <= names@.len(),
                        dup <==> exists|jj: int|
                            0 <= jj < t && (#[trigger] names@[jj])@ == name@,
                    decreases names@.len() - t,
                {
                    if bytes_eq(names[t].as_slice(), name.as_slice()) {
                        dup = true;
                        proof {
                            assert(0 <= t < names@.len() && (#[trigger] names@[t as int])@
                                == name@);
                        }
                    }
                    t = t + 1;
                }
                if dup {
                    proof {
                        let jj = choose|jj: int|
                            0 <= jj < names@.len() && (#[trigger] names@[jj])@ == name@;
                        assert(init_line_name(lsv[jj]) == init_line_name(lsv[j as int]));
                        assert(!text_wf(s@));
                    }
                    return Err(CircuitError::Format);
                }
                names.push(name);
                inputs.push((j, v));
                j = j + 1;
            },
            None => {
                return Err(CircuitError::Format);
            },
        }
    }
    let n_inputs: usize = names.len();
    // second section: gates; parse every line first, then intern
    let mut parts: Vec<(Vec<u8>, Op, Vec<u8>, Vec<u8>)> = Vec::new();
    if sep < ls.len() {
        let mut g: usize = sep + 1;
        while g < ls.len()
            invariant
                sep < g <= ls@.len(),
                bytes_view(ls@) == lsv,
                lsv == lines_of(s@),
                find_empty(lsv) == sep as int,
                n_init_lines(lsv) == sep as int,
                parts@.len() == g - sep - 1,
                forall|jj: int|
                    sep < jj < g ==> gate_line_ok(#[trigger] lsv[jj]),
                forall|jj: int|
                    0 <= jj < parts@.len() ==> {
                        let (a, op, b, o) = gate_line_parts(lsv[sep + 1 + jj]);
                        (#[trigger] parts@[jj]).0@ == a && parts@[jj].1 == op && parts@[jj].2@ == b
                            && parts@[jj].3@ == o
                    },
            decreases ls@.len() - g,
        {
            proof {
                assert(lsv[g as int] == ls@[g as int]@);
            }
            match parse_gate_line(ls[g].as_slice()) {
                Some(p) => {
                    parts.push(p);
                    g = g + 1;
                },
                None => {
                    return Err(CircuitError::Format);
                },
            }
        }
    }
    proof {
        assert(parts@.len() == n_gate_lines(lsv));
        assert(text_wf(s@));
    }
    // intern each gate's wires; reject a repeated output wire
    let mut gates: Vec<Gate> = Vec::new();
    let mut out_seen: Vec<bool> = Vec::new();
    let mut t: usize = 0;
    while t < n_inputs
        invariant
            0 <= t <= n_inputs,
            out_seen@.len() == t,
            forall|w: int| 0 <= w < t ==> !(#[trigger] out_seen@[w]),
        decreases n_inputs - t,
    {
        out_seen.push(false);
        t = t + 1;
    }
    let ghost lparts = parts@;
    let mut gi: usize = 0;
    while gi < parts.len()
        invariant
            0 <= gi <= parts@.len(),
            parts@ == lparts,
            lsv == lines_of(s@),
            find_empty(lsv) == sep as int,
            n_init_lines(lsv) == n_inputs as int,
            text_wf(s@),
            parts@.len() == n_gate_lines(lsv),
            forall|jj: int|
                0 <= jj < n_inputs ==> (#[trigger] names@[jj])@ == init_line_name(lsv[jj]),
            forall|jj: int|
                0 <= jj < n_inputs ==> (#[trigger] inputs@[jj]).1 == init_line_val(lsv[jj]),
            forall|jj: int|
                0 <= jj < parts@.len() ==> {
                    let (a, op, b, o) = gate_line_parts(lsv[sep + 1 + jj]);
                    (#[trigger] parts@[jj]).0@ == a && parts@[jj].1 == op && parts@[jj].2@ == b
                        && parts@[jj].3@ == o
                },
            names_unique(names@),
            names@.len() >= n_inputs as int,
            out_seen@.len() == names@.len(),
            gates@.len() == gi,
            inputs@.len() == n_inputs as int,
            forall|jj: int|
                0 <= jj < n_inputs ==> (#[trigger] inputs@[jj]).0 == jj,
            forall|jj: int, kk: int|
                0 <= jj < kk < n_inputs ==> (#[trigger] inputs@[jj]).0 != (
                #[trigger] inputs@[kk]).0,
            forall|k: int|
                0 <= k < gi ==> (#[trigger] gates@[k]).i1 < names@.len() && gates@[k].i2
                    < names@.len() && gates@[k].out < names@.len(),
            forall|k: int|
                0 <= k < gi ==> {
                    let g = #[trigger] gates@[k];
                    (names@[g.i1 as int])@ == parts@[k].0@ && g.op == parts@[k].1 && (
                    names@[g.i2 as int])@ == parts@[k].2@ && (names@[g.out as int])@
                        == parts@[k].3@
                },
            forall|w: int|
                0 <= w < out_seen@.len() ==> ((#[trigger] out_seen@[w]) <==> exists|k: int|
                    0 <= k < gi && (#[trigger] gates@[k]).out == w),
            forall|j1: int, j2: int|
                0 <= j1 < j2 < gi ==> (#[trigger] gates@[j1]).out != (#[trigger] gates@[j2]).out,
        decreases parts@.len() - gi,
    {
        let op = parts[gi].1;
        let ia = intern(&mut names, parts[gi].0.as_slice());
        let ib = intern(&mut names, parts[gi].2.as_slice());
        let io = intern(&mut names, parts[gi].3.as_slice());
        // keep the seen-output table as long as the name table
        while out_seen.len() < names.len()
            invariant
                out_seen@.len() <= names@.len(),
                forall|w: int|
                    0 <= w < out_seen@.len() ==> ((#[trigger] out_seen@[w]) <==> exists|k: int|
                        0 <= k < gi && (#[trigger] gates@[k]).out == w),
                forall|k: int|
                    0 <= k < gi ==> (#[trigger] gates@[k]).out < out_seen@.len(),
            decreases names@.len() - out_seen@.len(),
        {
            out_seen.push(false);
        }
        if out_seen[io] {
            proof {
                let k = choose|k: int| 0 <= k < gi && (#[trigger] gates@[k]).out == io as int;
                assert(gate_line_parts(lsv[sep + 1 + k]).3 == (names@[io as int])@);
                assert(gate_line_parts(lsv[sep + 1 + gi]).3 == (names@[io as int])@);
                assert(find_empty(lsv) < sep + 1 + k < sep + 1 + gi < lsv.len());
                assert(dup_out(s@));
            }
            return Err(CircuitError::DuplicateOutput);
        }
        let ghost seen0 = out_seen@;
        let ghost gates0 = gates@;
        out_seen.set(io, true);
        gates.push(Gate { i1: ia, op, i2: ib, out: io });
        proof {
            assert forall|w: int| 0 <= w < out_seen@.len() implies ((#[trigger] out_seen@[w])
                <==> exists|k: int| 0 <= k < gi + 1 && (#[trigger] gates@[k]).out == w) by {
                if w == io as int {
                    assert(gates@[gi as int].out == w);
                    assert(out_seen@[w]);
                } else {
                    assert(out_seen@[w] == seen0[w]);
                    if seen0[w] {
                        let k = choose|k: int| 0 <= k < gi && (#[trigger] gates0[k]).out == w;
                        assert(gates@[k] == gates0[k]);
                        assert(0 <= k < gi + 1 && (#[trigger] gates@[k]).out == w);
                    }
                    if exists|k: int| 0 <= k < gi + 1 && (#[trigger] gates@[k]).out == w {
                        let k = choose|k: int|
                            0 <= k < gi + 1 && (#[trigger] gates@[k]).out == w;
                        assert(k < gi);
                        assert(0 <= k < gi && (#[trigger] gates0[k]).out == w);
                        assert(seen0[w]);
                    }
                }
            }
        }
        gi = gi + 1;
    }
    let c = Circuit { names, gates, inputs };
    proof {
        // no two gate lines shared an output name
        assert forall|j1: int, j2: int|
            find_empty(lsv) < j1 < j2 < lsv.len() implies gate_line_parts(
            #[trigger] lsv[j1]).3 != gate_line_parts(#[trigger] lsv[j2]).3 by {
            let k1 = j1 - sep - 1;
            let k2 = j2 - sep - 1;
            assert((c.names@[c.gates@[k1].out as int])@ == gate_line_parts(lsv[j1]).3);
            assert((c.names@[c.gates@[k2].out as int])@ == gate_line_parts(lsv[j2]).3);
            assert(c.gates@[k1].out != c.gates@[k2].out);
            if c.gates@[k1].out < c.gates@[k2].out {
                assert((c.names@[c.gates@[k1].out as int])@ != (
                c.names@[c.gates@[k2].out as int])@);
            } else {
                assert((c.names@[c.gates@[k2].out as int])@ != (
                c.names@[c.gates@[k1].out as int])@);
            }
        }
        assert(!dup_out(s@));
        assert(circuit_matches(c, s@));
    }
    Ok(c)
}

} // verus!
