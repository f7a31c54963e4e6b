use vstd::prelude::*;

use crate::gf2::BitScalar;

verus! {

/// ASCII white space, as `char::is_whitespace` has it.
pub open spec fn is_space(b: u8) -> bool {
    b == 32 || (9 <= b && b <= 13)
}

fn space(b: u8) -> (r: bool)
    ensures
        r == is_space(b),
{
    b == 32 || (9 <= b && b <= 13)
}

/// The words of `s` from position `i` on: the maximal runs of bytes that are not
/// white space, in order. Read from the right: a byte that is not white space
/// starts a new word unless the next byte continues one.
pub open spec fn words_from(s: Seq<u8>, i: int) -> Seq<Seq<u8>>
    decreases s.len() - i,
{
    if i >= s.len() {
        Seq::empty()
    } else {
        let rest = words_from(s, i + 1);
        if is_space(s[i]) {
            rest
        } else if i + 1 < s.len() && !is_space(s[i + 1]) {
            rest.update(0, seq![s[i]] + rest[0])
        } else {
            seq![seq![s[i]]] + rest
        }
    }
}

/// The words of `s`, separated by white space.
pub open spec fn words(s: Seq<u8>) -> Seq<Seq<u8>> {
    words_from(s, 0)
}

/// The views of a list of byte vectors.
pub open spec fn byte_views(v: Seq<Vec<u8>>) -> Seq<Seq<u8>> {
    v.map_values(|w: Vec<u8>| w@)
}

proof fn lemma_word_starts(s: Seq<u8>, i: int)
    requires
        0 <= i < s.len(),
        !is_space(s[i]),
    ensures
        words_from(s, i).len() > 0,
    decreases s.len() - i,
{
    let rest = words_from(s, i + 1);
    if i + 1 < s.len() && !is_space(s[i + 1]) {
        lemma_word_starts(s, i + 1);
    }
}

/// Splits a line into its words.
pub fn split_words(line: &[u8]) -> (r: Vec<Vec<u8>>)
    ensures
        byte_views(r@) == words(line@),
{
    let mut acc: Vec<Vec<u8>> = Vec::new();
    let mut i: usize = line.len();
    assert(byte_views(acc@) =~= words_from(line@, i as int));
    while i > 0
        invariant
            i <= line@.len(),
            byte_views(acc@) == words_from(line@, i as int),
        decreases i,
    {
        i = i - 1;
        let c = line[i];
        if space(c) {
        } else if i + 1 < line.len() && !space(line[i + 1]) {
            proof {
                lemma_word_starts(line@, (i + 1) as int);
            }
            let mut tail = acc.remove(0);
            let mut w: Vec<u8> = Vec::new();
            w.push(c);
            w.append(&mut tail);
            acc.insert(0, w);
            assert(byte_views(acc@) =~= words_from(line@, i as int));
        } else {
            let mut w: Vec<u8> = Vec::new();
            w.push(c);
            acc.insert(0, w);
            assert(byte_views(acc@) =~= words_from(line@, i as int));
        }
    }
    acc
}

/// A decimal digit.
pub open spec fn is_digit(b: u8) -> bool {
    48 <= b && b <= 57
}

/// The value of a string of decimal digits, most significant first.
pub open spec fn decimal_value(d: Seq<u8>) -> nat
    decreases d.len(),
{
    if d.len() == 0 {
        0
    } else {
        decimal_value(d.drop_last()) * 10 + (d.last() - 48) as nat
    }
}

/// The index that a word names: a non-empty string of decimal digits whose value
/// fits in a `usize`.
pub open spec fn number_of(d: Seq<u8>) -> Option<usize> {
    if d.len() > 0 && (forall|k: int| 0 <= k < d.len() ==> is_digit(#[trigger] d[k]))
        && decimal_value(d) <= usize::MAX {
        Some(decimal_value(d) as usize)
    } else {
        None
    }
}

proof fn lemma_decimal_grows(d: Seq<u8>, j: int)
    requires
        0 <= j <= d.len(),
        forall|k: int| 0 <= k < d.len() ==> is_digit(#[trigger] d[k]),
    ensures
        decimal_value(d.take(j)) <= decimal_value(d),
    decreases d.len() - j,
{
    if j < d.len() {
        lemma_decimal_grows(d, j + 1);
        assert(d.take(j + 1).drop_last() =~= d.take(j));
    } else {
        assert(d.take(j) =~= d);
    }
}

/// Reads a word as an index.
pub fn parse_number(d: &[u8]) -> (r: Option<usize>)
    ensures
        r == number_of(d@),
{
    if d.len() == 0 {
        return None;
    }
    let mut acc: usize = 0;
    let mut k: usize = 0;
    assert(d@.take(0) =~= Seq::<u8>::empty());
    while k < d.len()
        invariant
            k <= d@.len(),
            d@.len() > 0,
            forall|j: int| 0 <= j < k ==> is_digit(#[trigger] d@[j]),
            acc as nat == decimal_value(d@.take(k as int)),
        decreases d@.len() - k,
    {
        let c = d[k];
        if !(48 <= c && c <= 57) {
            assert(!is_digit(d@[k as int]));
            return None;
        }
        assert(d@.take((k + 1) as int).drop_last() =~= d@.take(k as int));
        let digit: usize = (c - 48) as usize;
        let next = match acc.checked_mul(10) {
            Some(m) => m.checked_add(digit),
            None => None,
        };
        match next {
            Some(n) => {
                acc = n;
            },
            None => {
                proof {
                    if forall|j: int| 0 <= j < d@.len() ==> is_digit(#[trigger] d@[j]) {
                        lemma_decimal_grows(d@, (k + 1) as int);
                    }
                }
                return None;
            },
        }
        k = k + 1;
    }
    assert(d@.take(d@.len() as int) =~= d@);
    Some(acc)
}

/// One step of a circuit over a flat table of wire values.
#[derive(Clone, Copy, Debug, PartialEq, Eq, Structural)]
pub enum Instruction {
    /// Takes the next witness value into the wire.
    Input(usize),
    /// `Add(dst, a, b)`: wire `dst` gets the sum of wires `a` and `b`.
    Add(usize, usize, usize),
    /// `AddConst(dst, a, c)`: wire `dst` gets wire `a` plus the constant `c`.
    AddConst(usize, usize, BitScalar),
    /// `Mul(dst, a, b)`: wire `dst` gets the product of wires `a` and `b`.
    Mul(usize, usize, usize),
    /// Discloses the value of the wire.
    Output(usize),
}

/// An instruction tagged with the domain that it runs over, so that sub-circuits
/// over different domains make up one program.
#[derive(Clone, Copy, Debug, PartialEq, Eq, Structural)]
pub enum CombineOperation {
    /// An instruction over bits.
    GF2(Instruction),
}

/// Gate type `INPUT`.
pub open spec fn input_name() -> Seq<u8> {
    seq![73u8, 78u8, 80u8, 85u8, 84u8]
}

/// Gate type `XOR`.
pub open spec fn xor_name() -> Seq<u8> {
    seq![88u8, 79u8, 82u8]
}

/// Gate type `AND`.
pub open spec fn and_name() -> Seq<u8> {
    seq![65u8, 78u8, 68u8]
}

/// Gate type `INV`.
pub open spec fn inv_name() -> Seq<u8> {
    seq![73u8, 78u8, 86u8]
}

/// Every word of `t` from `lo` up to `hi` is an index.
pub open spec fn all_numbers(t: Seq<Seq<u8>>, lo: int, hi: int) -> bool {
    forall|k: int| lo <= k < hi ==> number_of(#[trigger] t[k]) is Some
}

/// The index that word `k` of `t` names.
pub open spec fn index_at(t: Seq<Seq<u8>>, k: int) -> usize {
    number_of(t[k])->0
}

/// The instruction of a gate line split into words `t`:
/// `<inputs> <outputs> <input wires...> <output wires...> <type>`, where `INPUT`,
/// `XOR`, `AND` and `INV` give `Input`, `Add`, `Mul` and `AddConst(_, _, 1)` on the
/// first wires listed. None where the line is malformed, lists too few wires for
/// its type, or names another type.
pub open spec fn gate_of(t: Seq<Seq<u8>>) -> Option<Instruction> {
    if t.len() >= 2 && number_of(t[0]) is Some && number_of(t[1]) is Some {
        let n_in = index_at(t, 0) as int;
        let n_out = index_at(t, 1) as int;
        let g = 2 + n_in + n_out;
        if g < t.len() && all_numbers(t, 2, g) {
            let name = t[g];
            if name == input_name() && n_out >= 1 {
                Some(Instruction::Input(index_at(t, 2 + n_in)))
            } else if name == xor_name() && n_in >= 2 && n_out >= 1 {
                Some(Instruction::Add(index_at(t, 2 + n_in), index_at(t, 2), index_at(t, 3)))
            } else if name == and_name() && n_in >= 2 && n_out >= 1 {
                Some(Instruction::Mul(index_at(t, 2 + n_in), index_at(t, 2), index_at(t, 3)))
            } else if name == inv_name() && n_in >= 1 && n_out >= 1 {
                Some(Instruction::AddConst(index_at(t, 2 + n_in), index_at(t, 2), BitScalar(true)))
            } else {
                None
            }
        } else {
            None
        }
    } else {
        None
    }
}

fn same_bytes(a: &[u8], b: &[u8]) -> (r: bool)
    ensures
        r == (a@ == b@),
{
    if a.len() != b.len() {
        return false;
    }
    let mut i: usize = 0;
    while i < a.len()
        invariant
            i <= a@.len(),
            a@.len() == b@.len(),
            forall|k: int| 0 <= k < i ==> a@[k] == b@[k],
        decreases a@.len() - i,
    {
        if a[i] != b[i] {
            return false;
        }
        i = i + 1;
    }
    assert(a@ =~= b@);
    true
}

fn number_at(t: &Vec<Vec<u8>>, k: usize) -> (r: usize)
    requires
        k < t@.len(),
        number_of(t@[k as int]@) is Some,
    ensures
        number_of(t@[k as int]@) == Some(r),
{
    match parse_number(t[k].as_slice()) {
        Some(n) => n,
        None => 0,
    }
}

/// Reads a gate line of a program.
pub fn parse_gate(line: &[u8]) -> (r: Option<Instruction>)
    ensures
        r == gate_of(words(line@)),
{
    let t = split_words(line);
    let ghost tw = words(line@);
    assert(tw.len() == t@.len());
    assert(forall|k: int| 0 <= k < t@.len() ==> #[trigger] t@[k]@ == tw[k]);
    if t.len() < 2 {
        return None;
    }
    let n_in = match parse_number(t[0].as_slice()) {
        Some(n) => n,
        None => return None,
    };
    let n_out = match parse_number(t[1].as_slice()) {
        Some(n) => n,
        None => return None,
    };
    let g = match n_in.checked_add(n_out) {
        Some(s) => match s.checked_add(2) {
            Some(g) => g,
            None => return None,
        },
        None => return None,
    };
    assert(n_in == index_at(tw, 0) && n_out == index_at(tw, 1));
    assert(number_of(tw[0]) is Some && number_of(tw[1]) is Some);
    if g >= t.len() {
        return None;
    }
    let mut k: usize = 2;
    while k < g
        invariant
            2 <= k <= g,
            g < t@.len(),
            g == 2 + index_at(tw, 0) + index_at(tw, 1),
            number_of(tw[0]) is Some && number_of(tw[1]) is Some,
            tw == words(line@),
            tw.len() == t@.len(),
            forall|j: int| 0 <= j < t@.len() ==> #[trigger] t@[j]@ == tw[j],
            all_numbers(tw, 2, k as int),
        decreases g - k,
    {
        if parse_number(t[k].as_slice()).is_none() {
            assert(number_of(tw[k as int]) is None);
            assert(!all_numbers(tw, 2, g as int));
            return None;
        }
        k = k + 1;
    }
    let input: [u8; 5] = [73u8, 78u8, 80u8, 85u8, 84u8];
    let xor: [u8; 3] = [88u8, 79u8, 82u8];
    let and: [u8; 3] = [65u8, 78u8, 68u8];
    let inv: [u8; 3] = [73u8, 78u8, 86u8];
    assert(input@ =~= input_name());
    assert(xor@ =~= xor_name());
    assert(and@ =~= and_name());
    assert(inv@ =~= inv_name());
    let name = t[g].as_slice();
    let out = 2 + n_in;
    if same_bytes(name, &input) {
        if n_out >= 1 {
            return Some(Instruction::Input(number_at(&t, out)));
        }
    } else if same_bytes(name, &xor) {
        if n_in >= 2 && n_out >= 1 {
            return Some(Instruction::Add(number_at(&t, out), number_at(&t, 2), number_at(&t, 3)));
        }
    } else if same_bytes(name, &and) {
        if n_in >= 2 && n_out >= 1 {
            return Some(Instruction::Mul(number_at(&t, out), number_at(&t, 2), number_at(&t, 3)));
        }
    } else if same_bytes(name, &inv) {
        if n_in >= 1 && n_out >= 1 {
            return Some(Instruction::AddConst(number_at(&t, out), number_at(&t, 2), BitScalar(true)));
        }
    }
    None
}

/// The first `n` words of `t` are indices.
pub open spec fn leads_with_numbers(t: Seq<Seq<u8>>, n: int) -> bool {
    t.len() >= n && all_numbers(t, 0, n)
}

/// Reads the first `n` words of a line as indices; extra words are ignored.
pub fn leading_numbers(line: &[u8], n: usize) -> (r: Option<Vec<usize>>)
    ensures
        r is Some <==> leads_with_numbers(words(line@), n as int),
        r is Some ==> r->0@.len() == n && forall|k: int|
            0 <= k < n ==> #[trigger] r->0@[k] == index_at(words(line@), k),
{
    let t = split_words(line);
    let ghost tw = words(line@);
    assert(tw.len() == t@.len());
    assert(forall|k: int| 0 <= k < t@.len() ==> #[trigger] t@[k]@ == tw[k]);
    if t.len() < n {
        return None;
    }
    let mut out: Vec<usize> = Vec::new();
    let mut k: usize = 0;
    while k < n
        invariant
            k <= n <= t@.len(),
            tw.len() == t@.len(),
            forall|j: int| 0 <= j < t@.len() ==> #[trigger] t@[j]@ == tw[j],
            tw == words(line@),
            all_numbers(tw, 0, k as int),
            out@.len() == k,
            forall|j: int| 0 <= j < k ==> #[trigger] out@[j] == index_at(tw, j),
        decreases n - k,
    {
        match parse_number(t[k].as_slice()) {
            Some(v) => {
                out.push(v);
            },
            None => {
                assert(!all_numbers(tw, 0, n as int));
                return None;
            },
        }
        k = k + 1;
    }
    Some(out)
}

/// A circuit read from its text form.
#[derive(Clone, Debug)]
pub struct Circuit {
    pub num_gates: usize,
    pub num_wires: usize,
    pub num_parties: usize,
    pub num_input_alice: usize,
    pub num_input_bob: usize,
    pub num_output: usize,
    pub program: Vec<CombineOperation>,
}

/// The three header lines: `<gates> <wires>`, `<parties> <inputs of A> <inputs
/// of B>` and `<outputs>`.
pub open spec fn header_ok(lines: Seq<Seq<u8>>) -> bool {
    lines.len() >= 3 && leads_with_numbers(words(lines[0]), 2) && leads_with_numbers(
        words(lines[1]),
        3,
    ) && leads_with_numbers(words(lines[2]), 1)
}

/// The number of gates that the header states.
pub open spec fn gate_count(lines: Seq<Seq<u8>>) -> int {
    index_at(words(lines[0]), 0) as int
}

/// The instruction of gate line `k`.
pub open spec fn gate_at(lines: Seq<Seq<u8>>, k: int) -> Option<Instruction> {
    gate_of(words(lines[3 + k]))
}

/// The text holds a line for each gate that the header states, and each is well
/// formed.
pub open spec fn gates_ok(lines: Seq<Seq<u8>>) -> bool {
    &&& gate_count(lines) <= lines.len() - 3
    &&& forall|k: int| 0 <= k < gate_count(lines) ==> #[trigger] gate_at(lines, k) is Some
}

/// Reads a program in its text form, given as its lines: three header lines, then
/// one line per gate. Lines past the number of gates that the header states are
/// ignored. None where a header line or a gate line is malformed, or where the
/// text ends before the last gate: a program is never cut short.
pub fn parse_program(lines: &[Vec<u8>]) -> (r: Option<Circuit>)
    ensures
        r is Some <==> header_ok(byte_views(lines@)) && gates_ok(byte_views(lines@)),
        r is Some ==> {
            let ls = byte_views(lines@);
            let c = r->0;
            &&& c.num_gates == index_at(words(ls[0]), 0)
            &&& c.num_wires == index_at(words(ls[0]), 1)
            &&& c.num_parties == index_at(words(ls[1]), 0)
            &&& c.num_input_alice == index_at(words(ls[1]), 1)
            &&& c.num_input_bob == index_at(words(ls[1]), 2)
            &&& c.num_output == index_at(words(ls[2]), 0)
            &&& c.program@.len() == c.num_gates
            &&& forall|k: int|
                0 <= k < c.num_gates ==> #[trigger] c.program@[k] == CombineOperation::GF2(
                    gate_at(ls, k)->0,
                )
        },
{
    let ghost ls = byte_views(lines@);
    assert(ls.len() == lines@.len());
    assert(forall|k: int| 0 <= k < lines@.len() ==> #[trigger] lines@[k]@ == ls[k]);
    if lines.len() < 3 {
        return None;
    }
    let first = match leading_numbers(lines[0].as_slice(), 2) {
        Some(v) => v,
        None => return None,
    };
    let second = match leading_numbers(lines[1].as_slice(), 3) {
        Some(v) => v,
        None => return None,
    };
    let third = match leading_numbers(lines[2].as_slice(), 1) {
        Some(v) => v,
        None => return None,
    };
    let num_gates = first[0];
    if num_gates > lines.len() - 3 {
        return None;
    }
    let count = num_gates;
    let mut program: Vec<CombineOperation> = Vec::new();
    let mut k: usize = 0;
    let mut i: usize = 3;
    while k < count
        invariant
            i == k + 3,
            header_ok(ls),
            ls == byte_views(lines@),
            ls.len() == lines@.len(),
            forall|j: int| 0 <= j < lines@.len() ==> #[trigger] lines@[j]@ == ls[j],
            count == gate_count(ls),
            count <= lines@.len() - 3,
            k <= count,
            program@.len() == k,
            forall|j: int|
                0 <= j < k ==> #[trigger] gate_at(ls, j) is Some && program@[j]
                    == CombineOperation::GF2(gate_at(ls, j)->0),
        decreases count - k,
    {
        match parse_gate(lines[i].as_slice()) {
            Some(ins) => {
                program.push(CombineOperation::GF2(ins));
            },
            None => {
                assert(gate_at(ls, k as int) is None);
                return None;
            },
        }
        k = k + 1;
        i = i + 1;
    }
    Some(
        Circuit {
            num_gates,
            num_wires: first[1],
            num_parties: second[0],
            num_input_alice: second[1],
            num_input_bob: second[2],
            num_output: third[0],
            program,
        },
    )
}

} // verus!
