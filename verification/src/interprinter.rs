//! A step interpreter for instruction trees: the tree is flattened into instructions
//! and loop brackets that carry their jump targets, and a program counter walks them.

use vstd::prelude::*;
use crate::instruction::{Instruction, Value};
use crate::interpreter::memory::grown_cells;
use crate::parse::{Nod, Nods};

verus! {

/// A memory of byte cells that grows, with zero cells, whenever a cell at or past its
/// last one is addressed.
pub struct Memory {
    cells: Vec<u8>,
}

impl Memory {
    pub closed spec fn cells(&self) -> Seq<u8> {
        self.cells@
    }

    pub fn new(cells: Vec<u8>) -> (r: Self)
        ensures
            r.cells() == cells@,
    {
        Memory { cells }
    }

    /// Grows the memory so that `index` is not its last cell; reports whether it could.
    pub fn extend(&mut self, index: usize) -> (ok: bool)
        ensures
            match grown_cells(old(self).cells(), index as int) {
                Some(c) => ok && final(self).cells() == c,
                None => !ok && final(self).cells() == old(self).cells(),
            },
    {
        let len = self.cells.len();
        if index < usize::MAX && len <= index + 1 {
            if len <= (usize::MAX - index - 1) / 2 {
                let new_len = len * 2 + index + 1;
                self.cells.resize(new_len, 0u8);
                proof {
                    assert forall|i: int| len <= i < new_len implies self.cells@[i] == 0 by {
                        assert(cloned::<u8>(0u8, self.cells@[i]));
                    }
                    assert(self.cells@ =~= old(self).cells@ + Seq::new((len + index + 1) as nat, |_i: int| 0u8));
                }
                true
            } else {
                false
            }
        } else if index < usize::MAX {
            true
        } else {
            false
        }
    }

    pub fn inner(&self) -> (r: &Vec<u8>)
        ensures
            r@ == self.cells(),
    {
        &self.cells
    }

    fn load(&self, index: usize) -> (v: u8)
        requires
            index < self.cells().len(),
        ensures
            v == self.cells()[index as int],
    {
        self.cells[index]
    }

    fn store(&mut self, index: usize, value: u8)
        requires
            index < old(self).cells().len(),
        ensures
            final(self).cells() == old(self).cells().update(index as int, value),
    {
        self.cells.set(index, value);
    }

    /// The cell at `index`, after growing the memory so that it exists; zero if it cannot grow.
    pub fn get(&mut self, index: usize) -> (v: u8)
        ensures
            match grown_cells(old(self).cells(), index as int) {
                Some(c) => final(self).cells() == c && v == c[index as int],
                None => final(self).cells() == old(self).cells() && v == 0,
            },
    {
        if self.extend(index) {
            self.cells[index]
        } else {
            0
        }
    }

    /// The cell at `index` to write to, after growing the memory so that it exists.
    pub fn get_mut(&mut self, index: usize) -> (r: &mut u8)
        requires
            grown_cells(old(self).cells(), index as int) is Some,
        ensures
            *r == grown_cells(old(self).cells(), index as int)->0[index as int],
            final(self).cells() == grown_cells(old(self).cells(), index as int)->0.update(index as int, *final(r)),
    {
        self.extend(index);
        &mut self.cells[index]
    }
}

/// One flattened instruction: an instruction, or a loop bracket with its jump target.
#[derive(Debug, Clone, Copy, PartialEq, Eq, Structural)]
pub enum CInstruction {
    Instruction(Instruction),
    /// Jumps past the matching end when the current cell is zero.
    WhileBegin(usize),
    /// Jumps back to the matching begin.
    WhileEnd(usize),
}

/// The flat instructions of a tree node placed at position `at`.
pub open spec fn c_flatten_nod(n: Nod, at: int) -> Seq<CInstruction>
    decreases n,
{
    match n {
        Nod::Instruction(i) => seq![CInstruction::Instruction(i)],
        Nod::Loop(body) => {
            let inner = c_flatten(body@, at + 1);
            seq![CInstruction::WhileBegin((at + inner.len() + 2) as usize)] + inner
                + seq![CInstruction::WhileEnd(at as usize)]
        },
    }
}

/// The flat instructions of a sequence of tree nodes placed at position `at`.
pub open spec fn c_flatten(ns: Seq<Nod>, at: int) -> Seq<CInstruction>
    decreases ns,
{
    if ns.len() == 0 {
        Seq::empty()
    } else {
        let front = c_flatten(ns.drop_last(), at);
        front + c_flatten_nod(ns.last(), at + front.len())
    }
}

proof fn lemma_c_flatten_prefix(ns: Seq<Nod>, i: int, at: int)
    requires
        0 <= i < ns.len(),
    ensures
        c_flatten(ns.take(i + 1), at) == c_flatten(ns.take(i), at) + c_flatten_nod(ns[i], at + c_flatten(ns.take(i), at).len()),
{
    assert(ns.take(i + 1).drop_last() =~= ns.take(i));
}

proof fn lemma_c_flatten_len_shift(ns: Seq<Nod>, at: int, at2: int)
    ensures
        c_flatten(ns, at).len() == c_flatten(ns, at2).len(),
    decreases ns,
{
    if ns.len() > 0 {
        lemma_c_flatten_len_shift(ns.drop_last(), at, at2);
        let f1 = c_flatten(ns.drop_last(), at);
        let f2 = c_flatten(ns.drop_last(), at2);
        if let Nod::Loop(body) = ns.last() {
            lemma_c_flatten_len_shift(body@, at + f1.len() + 1, at2 + f2.len() + 1);
        }
        assert(c_flatten_nod(ns.last(), at + f1.len()).len() == c_flatten_nod(ns.last(), at2 + f2.len()).len());
    }
}

proof fn lemma_c_flatten_len_prefix(ns: Seq<Nod>, i: int, at: int)
    requires
        0 <= i <= ns.len(),
    ensures
        c_flatten(ns.take(i), at).len() <= c_flatten(ns, at).len(),
    decreases ns.len() - i,
{
    if i < ns.len() {
        lemma_c_flatten_len_prefix(ns, i + 1, at);
        lemma_c_flatten_prefix(ns, i, at);
    } else {
        assert(ns.take(i) =~= ns);
    }
}

/// A jump target lies within the program or just past it.
pub open spec fn c_target_within(c: CInstruction, end: int) -> bool {
    match c {
        CInstruction::WhileBegin(t) | CInstruction::WhileEnd(t) => t <= end,
        _ => true,
    }
}

pub proof fn lemma_c_flatten_targets(ns: Seq<Nod>, at: int)
    requires
        0 <= at,
        at + c_flatten(ns, at).len() <= usize::MAX,
    ensures
        forall|i: int| 0 <= i < c_flatten(ns, at).len()
            ==> c_target_within(#[trigger] c_flatten(ns, at)[i], at + c_flatten(ns, at).len()),
    decreases ns,
{
    if ns.len() > 0 {
        let front = c_flatten(ns.drop_last(), at);
        let here = at + front.len();
        lemma_c_flatten_targets(ns.drop_last(), at);
        let tail = c_flatten_nod(ns.last(), here);
        if let Nod::Loop(body) = ns.last() {
            let inner = c_flatten(body@, here + 1);
            lemma_c_flatten_targets(body@, here + 1);
            assert forall|i: int| 0 <= i < tail.len() implies c_target_within(#[trigger] tail[i], here + tail.len()) by {
                if 1 <= i < 1 + inner.len() {
                    assert(tail[i] == inner[i - 1]);
                }
            }
        }
        assert forall|i: int| 0 <= i < c_flatten(ns, at).len()
            implies c_target_within(#[trigger] c_flatten(ns, at)[i], at + c_flatten(ns, at).len()) by {
            if i < front.len() {
                assert(c_flatten(ns, at)[i] == front[i]);
            } else {
                assert(c_flatten(ns, at)[i] == tail[i - front.len()]);
            }
        }
    }
}

/// The instructions, at every depth, and twice the loops: how long a tree's flat program is.
pub open spec fn nods_size(ns: Seq<Nod>) -> nat
    decreases ns,
{
    if ns.len() == 0 {
        0
    } else {
        nods_size(ns.drop_last()) + match ns.last() {
            Nod::Instruction(_) => 1nat,
            Nod::Loop(body) => nods_size(body@) + 2,
        }
    }
}

pub proof fn lemma_c_flatten_len(ns: Seq<Nod>, at: int)
    ensures
        c_flatten(ns, at).len() == nods_size(ns),
    decreases ns,
{
    if ns.len() > 0 {
        lemma_c_flatten_len(ns.drop_last(), at);
        let f1 = c_flatten(ns.drop_last(), at);
        assert(c_flatten(ns, at).len() == f1.len() + c_flatten_nod(ns.last(), at + f1.len()).len());
        if let Nod::Loop(body) = ns.last() {
            lemma_c_flatten_len(body@, at + f1.len() + 1);
            assert(c_flatten_nod(ns.last(), at + f1.len()).len() == c_flatten(body@, at + f1.len() + 1).len() + 2);
        }
    }
}

/// Each loop's begin jumps to just past its own end.
#[verifier::spinoff_prover]
#[verifier::rlimit(50)]
pub proof fn lemma_c_flatten_begins(ns: Seq<Nod>, at: int)
    requires
        0 <= at,
        at + c_flatten(ns, at).len() <= usize::MAX,
    ensures
        forall|i: int| 0 <= i < c_flatten(ns, at).len() ==> (#[trigger] c_flatten(ns, at)[i] matches CInstruction::WhileBegin(t)
            ==> at + i + 2 <= t <= at + c_flatten(ns, at).len()
                && c_flatten(ns, at)[t - 1 - at] == CInstruction::WhileEnd((at + i) as usize)),
    decreases ns,
{
    if ns.len() > 0 {
        let f = c_flatten(ns, at);
        let front = c_flatten(ns.drop_last(), at);
        let here = at + front.len();
        lemma_c_flatten_begins(ns.drop_last(), at);
        let tail = c_flatten_nod(ns.last(), here);
        assert(f == front + tail);
        assert forall|i: int| 0 <= i < f.len() implies (#[trigger] f[i] matches CInstruction::WhileBegin(t)
            ==> at + i + 2 <= t <= at + f.len() && f[t - 1 - at] == CInstruction::WhileEnd((at + i) as usize)) by {
            if i < front.len() {
                assert(f[i] == front[i]);
                if let CInstruction::WhileBegin(t) = front[i] {
                    assert(f[t - 1 - at] == front[t - 1 - at]);
                }
            } else if let Nod::Loop(body) = ns.last() {
                let inner = c_flatten(body@, here + 1);
                lemma_c_flatten_begins(body@, here + 1);
                let k = i - front.len();
                assert(f[i] == tail[k]);
                if k == 0 {
                    assert(tail[0] == CInstruction::WhileBegin((here + inner.len() + 2) as usize));
                    assert(f[here + inner.len() + 1 - at] == tail[inner.len() as int + 1]);
                } else if k <= inner.len() {
                    assert(tail[k] == inner[k - 1]);
                    if let CInstruction::WhileBegin(t) = inner[k - 1] {
                        assert(f[t - 1 - at] == tail[t - 1 - here]);
                        assert(tail[t - 1 - here] == inner[t - 1 - (here + 1)]);
                    }
                }
            }
        }
    }
}

/// Each loop's end jumps back to its own begin.
#[verifier::spinoff_prover]
#[verifier::rlimit(50)]
pub proof fn lemma_c_flatten_ends(ns: Seq<Nod>, at: int)
    requires
        0 <= at,
        at + c_flatten(ns, at).len() <= usize::MAX,
    ensures
        forall|i: int| 0 <= i < c_flatten(ns, at).len() ==> (#[trigger] c_flatten(ns, at)[i] matches CInstruction::WhileEnd(j)
            ==> at <= j < at + i && c_flatten(ns, at)[j - at] == CInstruction::WhileBegin((at + i + 1) as usize)),
    decreases ns,
{
    if ns.len() > 0 {
        let f = c_flatten(ns, at);
        let front = c_flatten(ns.drop_last(), at);
        let here = at + front.len();
        lemma_c_flatten_ends(ns.drop_last(), at);
        let tail = c_flatten_nod(ns.last(), here);
        assert(f == front + tail);
        assert forall|i: int| 0 <= i < f.len() implies (#[trigger] f[i] matches CInstruction::WhileEnd(j)
            ==> at <= j < at + i && f[j - at] == CInstruction::WhileBegin((at + i + 1) as usize)) by {
            if i < front.len() {
                assert(f[i] == front[i]);
                if let CInstruction::WhileEnd(j) = front[i] {
                    assert(f[j - at] == front[j - at]);
                }
            } else if let Nod::Loop(body) = ns.last() {
                let inner = c_flatten(body@, here + 1);
                lemma_c_flatten_ends(body@, here + 1);
                let k = i - front.len();
                assert(f[i] == tail[k]);
                if k == inner.len() + 1 {
                    assert(tail[inner.len() as int + 1] == CInstruction::WhileEnd(here as usize));
                    assert(f[here - at] == tail[0]);
                } else if 1 <= k <= inner.len() {
                    assert(tail[k] == inner[k - 1]);
                    if let CInstruction::WhileEnd(j) = inner[k - 1] {
                        assert(f[j - at] == tail[j - here]);
                        assert(tail[j - here] == inner[j - (here + 1)]);
                    }
                }
            }
        }
    }
}

fn c_flatten_into(out: &mut Vec<CInstruction>, nodes: &Nods)
    requires
        old(out)@.len() + c_flatten(nodes@, old(out)@.len() as int).len() < usize::MAX,
    ensures
        final(out)@ == old(out)@ + c_flatten(nodes@, old(out)@.len() as int),
    decreases nodes@,
{
    let ghost base = out@.len() as int;
    let ghost start = out@;
    let mut i: usize = 0;
    proof {
        assert(nodes@.take(0) =~= Seq::<Nod>::empty());
        assert(start + Seq::<CInstruction>::empty() =~= start);
    }
    while i < nodes.len()
        invariant
            i <= nodes@.len(),
            base == start.len(),
            base + c_flatten(nodes@, base).len() < usize::MAX,
            out@ == start + c_flatten(nodes@.take(i as int), base),
        decreases nodes@.len() - i,
    {
        proof {
            lemma_c_flatten_prefix(nodes@, i as int, base);
            lemma_c_flatten_len_prefix(nodes@, i as int + 1, base);
        }
        let ghost here = out@.len() as int;
        match &nodes[i] {
            Nod::Loop(body) => {
                let first = out.len();
                out.push(CInstruction::WhileBegin(0));
                proof {
                    lemma_c_flatten_len_shift(body@, here + 1, base);
                    assert(decreases_to!(nodes@ => nodes@[i as int]));
                }
                c_flatten_into(out, body);
                let target = out.len() + 1;
                out.set(first, CInstruction::WhileBegin(target));
                out.push(CInstruction::WhileEnd(first));
            },
            Nod::Instruction(instruction) => out.push(CInstruction::Instruction(*instruction)),
        }
        proof {
            assert(out@ =~= start + c_flatten(nodes@.take(i as int + 1), base));
        }
        i = i + 1;
    }
    proof {
        assert(nodes@.take(nodes@.len() as int) =~= nodes@);
    }
}

/// Flattening a tree needs a program that counts fewer than `usize::MAX` instructions.
pub open spec fn c_flattenable(nodes: Seq<Nod>) -> bool {
    c_flatten(nodes, 0).len() < usize::MAX
}

fn node_to_c_instructions(nodes: &Nods) -> (r: Vec<CInstruction>)
    requires
        c_flattenable(nodes@),
    ensures
        r@ == c_flatten(nodes@, 0),
{
    let mut instructions: Vec<CInstruction> = Vec::new();
    c_flatten_into(&mut instructions, nodes);
    assert(Seq::<CInstruction>::empty() + c_flatten(nodes@, 0) =~= c_flatten(nodes@, 0));
    instructions
}

#[derive(Debug, Clone, Copy, PartialEq, Eq, Structural)]
pub enum Error {
    /// A read found no byte left to read.
    EndOfInput,
    /// A cell before the first one was addressed.
    NegativePointer(isize),
    /// The pointer moved past the largest address.
    PointerOverflow,
    /// A cell was addressed that the memory cannot hold.
    OutOfMemory,
}

/// The state of a running program.
pub struct Snapshot {
    pub pc: int,
    pub ptr: int,
    pub cells: Seq<u8>,
    /// What is left to read.
    pub input: Seq<u8>,
    /// What was written.
    pub output: Seq<u8>,
}

/// The cells after making room for the cell at `offset` from the pointer, and its address.
pub open spec fn locate(s: Snapshot, offset: int) -> Result<(Seq<u8>, int), Error> {
    let p = s.ptr + offset;
    if p < 0 {
        Err(Error::NegativePointer(p as isize))
    } else {
        match grown_cells(s.cells, p) {
            Some(c) => Ok((c, p)),
            None => Err(Error::OutOfMemory),
        }
    }
}

pub open spec fn byte_add(a: u8, b: u8) -> u8 {
    vstd::wrapping::u8_specs::wrapping_add(a, b)
}

pub open spec fn byte_sub(a: u8, b: u8) -> u8 {
    vstd::wrapping::u8_specs::wrapping_sub(a, b)
}

pub open spec fn byte_mul(a: u8, b: u8) -> u8 {
    vstd::wrapping::u8_specs::wrapping_mul(a, b)
}

/// The cell at `offset` raised (or, with `minus`, lowered) by `v`, wrapping around.
pub open spec fn change_at(s: Snapshot, offset: int, v: u8, minus: bool) -> Result<Snapshot, Error> {
    match locate(s, offset) {
        Err(e) => Err(e),
        Ok((c, p)) => Ok(Snapshot { cells: c.update(p, if minus { byte_sub(c[p], v) } else { byte_add(c[p], v) }), ..s }),
    }
}

/// The value of an operand; reading a cell may grow the memory.
pub open spec fn operand(s: Snapshot, v: Value) -> Result<(Snapshot, u8), Error> {
    match v {
        Value::Const(x) => Ok((s, x)),
        Value::Memory(o) => match locate(s, o as int) {
            Err(e) => Err(e),
            Ok((c, p)) => Ok((Snapshot { cells: c, ..s }, c[p])),
        },
    }
}

/// Reads `n` bytes one after the other into the cell at `offset`.
pub open spec fn input_times(s: Snapshot, offset: int, n: nat) -> Result<Snapshot, Error>
    decreases n,
{
    if n == 0 {
        Ok(s)
    } else {
        match input_times(s, offset, (n - 1) as nat) {
            Err(e) => Err(e),
            Ok(t) => if t.input.len() == 0 {
                Err(Error::EndOfInput)
            } else {
                match locate(t, offset) {
                    Err(e) => Err(e),
                    Ok((c, p)) => Ok(Snapshot { cells: c.update(p, t.input[0]), input: t.input.drop_first(), ..t }),
                }
            },
        }
    }
}

/// What one instruction does; the program counter is left where it is. A change by a zero
/// amount touches no cell.
pub open spec fn effect(i: Instruction, s: Snapshot) -> Result<Snapshot, Error> {
    match i {
        Instruction::PtrIncrement(n) => if s.ptr + n > usize::MAX {
            Err(Error::PointerOverflow)
        } else {
            Ok(Snapshot { ptr: s.ptr + n, ..s })
        },
        Instruction::PtrDecrement(n) => if s.ptr < n {
            Err(Error::NegativePointer((s.ptr - n) as isize))
        } else {
            Ok(Snapshot { ptr: s.ptr - n, ..s })
        },
        Instruction::Add(o, v) => match operand(s, v) {
            Err(e) => Err(e),
            Ok((t, x)) => if x != 0 { change_at(t, o as int, x, false) } else { Ok(t) },
        },
        Instruction::Sub(o, v) => match operand(s, v) {
            Err(e) => Err(e),
            Ok((t, x)) => if x != 0 { change_at(t, o as int, x, true) } else { Ok(t) },
        },
        Instruction::MulAdd(to, from, x) => match operand(s, Value::Memory(from)) {
            Err(e) => Err(e),
            Ok((t, n)) => if n != 0 { change_at(t, to as int, byte_mul(n, x), false) } else { Ok(t) },
        },
        Instruction::MulSub(to, from, x) => match operand(s, Value::Memory(from)) {
            Err(e) => Err(e),
            Ok((t, n)) => if n != 0 { change_at(t, to as int, byte_mul(n, x), true) } else { Ok(t) },
        },
        Instruction::Output(o, n) => if n == 0 {
            Ok(s)
        } else {
            match locate(s, o as int) {
                Err(e) => Err(e),
                Ok((c, p)) => Ok(Snapshot { cells: c, output: s.output + Seq::new(n as nat, |_k: int| c[p]), ..s }),
            }
        },
        Instruction::Input(o, n) => input_times(s, o as int, n as nat),
        Instruction::SetValue(o, v) => match operand(s, v) {
            Err(e) => Err(e),
            Ok((t, x)) => match locate(t, o as int) {
                Err(e) => Err(e),
                Ok((c, p)) => Ok(Snapshot { cells: c.update(p, x), ..t }),
            },
        },
    }
}

/// The snapshot that reading an operand leaves, whether or not what follows fails: reading a
/// cell may have grown the memory.
pub open spec fn operand_left(s: Snapshot, v: Value) -> Snapshot {
    match v {
        Value::Memory(o) => match locate(s, o as int) {
            Ok((c, _)) => Snapshot { cells: c, ..s },
            Err(_) => s,
        },
        Value::Const(_) => s,
    }
}

/// The snapshot after the reads of `n` that succeeded, one after the other.
pub open spec fn input_reached(s: Snapshot, offset: int, n: nat) -> Snapshot
    decreases n,
{
    if n == 0 {
        s
    } else {
        match input_times(s, offset, n) {
            Ok(t) => t,
            Err(_) => input_reached(s, offset, (n - 1) as nat),
        }
    }
}

/// The snapshot that a failed instruction leaves: an operand read before the failure may have
/// grown the memory, and repeated reads keep the bytes read before the one that failed;
/// the pointer and the output stay.
pub open spec fn effect_failed(i: Instruction, s: Snapshot) -> Snapshot {
    match i {
        Instruction::Add(_, v) | Instruction::Sub(_, v) | Instruction::SetValue(_, v) => operand_left(s, v),
        Instruction::MulAdd(_, from, _) | Instruction::MulSub(_, from, _) => operand_left(s, Value::Memory(from)),
        Instruction::Input(o, n) => input_reached(s, o as int, n as nat),
        _ => s,
    }
}

/// The snapshot that a failed step leaves.
pub open spec fn c_step_failed(prog: Seq<CInstruction>, s: Snapshot) -> Snapshot {
    match prog[s.pc] {
        CInstruction::Instruction(i) => effect_failed(i, s),
        _ => s,
    }
}

/// One step of a program whose counter is in range.
pub open spec fn c_step(prog: Seq<CInstruction>, s: Snapshot) -> Result<Snapshot, Error> {
    match prog[s.pc] {
        CInstruction::Instruction(i) => match effect(i, s) {
            Err(e) => Err(e),
            Ok(t) => Ok(Snapshot { pc: s.pc + 1, ..t }),
        },
        CInstruction::WhileBegin(to) => match locate(s, 0) {
            Err(e) => Err(e),
            Ok((c, p)) => Ok(Snapshot { cells: c, pc: if c[p] == 0 { to as int } else { s.pc + 1 }, ..s }),
        },
        CInstruction::WhileEnd(to) => Ok(Snapshot { pc: to as int, ..s }),
    }
}

/// The brackets of a flattened tree jump as a loop runs: a step at a loop's begin goes just
/// past the loop's own end when the current cell is zero, and into the body otherwise, with
/// the pointer, the input, the output and the values of the cells kept (the memory only grows,
/// with zeros); a step at a loop's end goes back to the loop's own begin.
pub proof fn lemma_bracket_steps(ns: Seq<Nod>, s: Snapshot)
    requires
        c_flattenable(ns),
        0 <= s.pc < c_flatten(ns, 0).len(),
    ensures
        c_flatten(ns, 0)[s.pc] matches CInstruction::WhileBegin(t) ==> {
            &&& s.pc + 2 <= t <= c_flatten(ns, 0).len()
            &&& c_flatten(ns, 0)[t - 1] == CInstruction::WhileEnd(s.pc as usize)
            &&& (c_step(c_flatten(ns, 0), s) is Ok <==> locate(s, 0) is Ok)
            &&& c_step(c_flatten(ns, 0), s) matches Ok(r) ==> {
                &&& r.ptr == s.ptr
                &&& r.input == s.input
                &&& r.output == s.output
                &&& r.cells.len() >= s.cells.len()
                &&& (forall|i: int| 0 <= i < s.cells.len() ==> r.cells[i] == s.cells[i])
                &&& (forall|i: int| s.cells.len() <= i < r.cells.len() ==> r.cells[i] == 0)
                &&& r.pc == if r.cells[s.ptr] == 0 { t as int } else { s.pc + 1 }
            }
        },
        c_flatten(ns, 0)[s.pc] matches CInstruction::WhileEnd(j) ==> {
            &&& j < s.pc
            &&& c_flatten(ns, 0)[j as int] == CInstruction::WhileBegin((s.pc + 1) as usize)
            &&& c_step(c_flatten(ns, 0), s) == Ok::<Snapshot, Error>(Snapshot { pc: j as int, ..s })
        },
{
    lemma_c_flatten_begins(ns, 0);
    lemma_c_flatten_ends(ns, 0);
    let prog = c_flatten(ns, 0);
    assert(prog[s.pc] == c_flatten(ns, 0)[s.pc]);
    if let CInstruction::WhileBegin(t) = prog[s.pc] {
        if let Ok((c, p)) = locate(s, 0) {
            assert(p == s.ptr);
            if s.cells.len() <= p + 1 {
                assert forall|i: int| 0 <= i < s.cells.len() implies c[i] == s.cells[i] by {}
            }
        }
    }
}

/// Once a non-empty memory has grown for `index`, addressing `index` again changes nothing.
proof fn lemma_grown_stable(cells: Seq<u8>, index: int)
    requires
        0 <= index,
        cells.len() > 0,
        grown_cells(cells, index) is Some,
    ensures
        index < grown_cells(cells, index)->0.len(),
        grown_cells(cells, index)->0.len() >= cells.len(),
        grown_cells(grown_cells(cells, index)->0, index) == grown_cells(cells, index),
{
}

struct State {
    pointer: usize,
    memory: Memory,
}

pub struct InterPrinter {
    state: State,
    input: Vec<u8>,
    input_pos: usize,
    output: Vec<u8>,
    instructions: Vec<CInstruction>,
    now: usize,
}

impl InterPrinter {
    pub closed spec fn program(&self) -> Seq<CInstruction> {
        self.instructions@
    }

    pub closed spec fn snapshot(&self) -> Snapshot {
        Snapshot {
            pc: self.now as int,
            ptr: self.state.pointer as int,
            cells: self.state.memory.cells(),
            input: self.input@.skip(self.input_pos as int),
            output: self.output@,
        }
    }

    pub closed spec fn wf(&self) -> bool {
        &&& self.input_pos <= self.input@.len()
        &&& self.state.memory.cells().len() > 0
        &&& self.instructions@.len() < usize::MAX
        &&& self.now <= self.instructions@.len()
        &&& forall|i: int| 0 <= i < self.instructions@.len()
            ==> c_target_within(#[trigger] self.instructions@[i], self.instructions@.len() as int)
    }

    pub fn builder<'a>() -> (r: InterPrinterBuilder<'a>)
        ensures
            r.root_node is None,
            r.memory_len == 1,
            r.input is None,
            r.output is None,
    {
        InterPrinterBuilder::default()
    }

    fn new(root_node: &Nods, memory_len: usize, input: Vec<u8>, output: Vec<u8>) -> (r: Self)
        requires
            c_flattenable(root_node@),
            memory_len > 0,
        ensures
            r.wf(),
            r.program() == c_flatten(root_node@, 0),
            r.snapshot() == (Snapshot {
                pc: 0,
                ptr: 0,
                cells: Seq::new(memory_len as nat, |_i: int| 0u8),
                input: input@,
                output: output@,
            }),
    {
        let cells = vec![0u8; memory_len];
        let state = State { pointer: 0, memory: Memory::new(cells) };
        let instructions = node_to_c_instructions(root_node);
        proof {
            lemma_c_flatten_targets(root_node@, 0);
            assert forall|i: int| 0 <= i < instructions@.len()
                implies c_target_within(#[trigger] instructions@[i], instructions@.len() as int) by {
            }
        }
        let r = Self { state, input, input_pos: 0, output, instructions, now: 0 };
        assert(r.input@.skip(0) =~= r.input@);
        assert(r.state.memory.cells() =~= Seq::new(memory_len as nat, |_i: int| 0u8));
        r
    }

    pub fn memory(&self) -> (r: &Vec<u8>)
        ensures
            r@ == self.snapshot().cells,
    {
        self.state.memory.inner()
    }

    pub fn pointer(&self) -> (r: usize)
        ensures
            r == self.snapshot().ptr,
    {
        self.state.pointer
    }

    pub fn now(&self) -> (r: usize)
        ensures
            r == self.snapshot().pc,
            self.wf() ==> r <= self.program().len(),
    {
        self.now
    }

    /// What the program has written so far.
    pub fn output(&self) -> (r: &[u8])
        ensures
            r@ == self.snapshot().output,
    {
        self.output.as_slice()
    }

    /// Queues a byte for the program to read.
    pub fn push_input(&mut self, byte: u8)
        requires
            old(self).wf(),
        ensures
            final(self).wf(),
            final(self).program() == old(self).program(),
            final(self).snapshot() == (Snapshot { input: old(self).snapshot().input.push(byte), ..old(self).snapshot() }),
    {
        self.input.push(byte);
        assert(self.input@.skip(self.input_pos as int) =~= old(self).input@.skip(self.input_pos as int).push(byte));
    }

    /// Hands over what the program has written so far, and forgets it.
    pub fn take_output(&mut self) -> (r: Vec<u8>)
        requires
            old(self).wf(),
        ensures
            final(self).wf(),
            final(self).program() == old(self).program(),
            r@ == old(self).snapshot().output,
            final(self).snapshot() == (Snapshot { output: Seq::empty(), ..old(self).snapshot() }),
    {
        let mut out: Vec<u8> = Vec::new();
        std::mem::swap(&mut out, &mut self.output);
        out
    }

    /// Makes room for the cell at `offset` from the pointer; returns its address.
    fn locate(&mut self, offset: isize) -> (r: Result<usize, Error>)
        requires
            old(self).wf(),
        ensures
            final(self).wf(),
            final(self).now == old(self).now,
            final(self).program() == old(self).program(),
            final(self).state.pointer == old(self).state.pointer,
            final(self).input@ == old(self).input@,
            final(self).input_pos == old(self).input_pos,
            final(self).output@ == old(self).output@,
            match locate(old(self).snapshot(), offset as int) {
                Ok((c, p)) => r == Ok::<usize, Error>(p as usize) && p < c.len()
                    && final(self).snapshot() == (Snapshot { cells: c, ..old(self).snapshot() }),
                Err(e) => r == Err::<usize, Error>(e) && final(self).snapshot() == old(self).snapshot(),
            },
    {
        let p: i128 = self.state.pointer as i128 + offset as i128;
        if p < 0 {
            return Err(Error::NegativePointer(p as isize));
        }
        if p >= usize::MAX as i128 {
            return Err(Error::OutOfMemory);
        }
        let p = p as usize;
        if self.state.memory.extend(p) {
            proof {
                lemma_grown_stable(old(self).state.memory.cells(), p as int);
            }
            Ok(p)
        } else {
            Err(Error::OutOfMemory)
        }
    }

    /// Raises (or lowers) the cell at `offset` by `v`.
    fn change(&mut self, offset: isize, v: u8, minus: bool) -> (r: Result<(), Error>)
        requires
            old(self).wf(),
        ensures
            final(self).wf(),
            final(self).now == old(self).now,
            final(self).program() == old(self).program(),
            match change_at(old(self).snapshot(), offset as int, v, minus) {
                Ok(t) => r is Ok && final(self).snapshot() == t,
                Err(e) => r == Err::<(), Error>(e) && final(self).snapshot() == old(self).snapshot(),
            },
    {
        let p = self.locate(offset)?;
        let cell = self.state.memory.load(p);
        if minus {
            self.state.memory.store(p, cell.wrapping_sub(v));
        } else {
            self.state.memory.store(p, cell.wrapping_add(v));
        }
        Ok(())
    }

    fn operand(&mut self, value: Value) -> (r: Result<u8, Error>)
        requires
            old(self).wf(),
        ensures
            final(self).wf(),
            final(self).now == old(self).now,
            final(self).program() == old(self).program(),
            match operand(old(self).snapshot(), value) {
                Ok((t, x)) => r == Ok::<u8, Error>(x) && final(self).snapshot() == t,
                Err(e) => r == Err::<u8, Error>(e) && final(self).snapshot() == old(self).snapshot(),
            },
            final(self).snapshot().ptr == old(self).snapshot().ptr,
    {
        match value {
            Value::Const(x) => Ok(x),
            Value::Memory(o) => {
                let p = self.locate(o)?;
                Ok(self.state.memory.load(p))
            },
        }
    }

    fn write_times(&mut self, offset: isize, repeat: usize) -> (r: Result<(), Error>)
        requires
            old(self).wf(),
        ensures
            final(self).wf(),
            final(self).now == old(self).now,
            final(self).program() == old(self).program(),
            match effect(Instruction::Output(offset, repeat), old(self).snapshot()) {
                Ok(t) => r is Ok && final(self).snapshot() == t,
                Err(e) => r == Err::<(), Error>(e) && final(self).snapshot() == old(self).snapshot(),
            },
    {
        if repeat == 0 {
            return Ok(());
        }
        let p = self.locate(offset)?;
        let value = self.state.memory.load(p);
        let ghost base = old(self).snapshot().output;
        let ghost cells = self.snapshot().cells;
        let mut k: usize = 0;
        while k < repeat
            invariant
                self.wf(),
                self.now == old(self).now,
                self.program() == old(self).program(),
                k <= repeat,
                self.snapshot() == (Snapshot { cells: cells, output: base + Seq::new(k as nat, |_k: int| value), ..old(self).snapshot() }),
            decreases repeat - k,
        {
            self.output.push(value);
            proof {
                assert(self.output@ =~= base + Seq::new((k + 1) as nat, |_k: int| value));
            }
            assert(self.snapshot() == (Snapshot { cells: cells, output: base + Seq::new((k + 1) as nat, |_k: int| value), ..old(self).snapshot() }));
            k = k + 1;
        }
        assert(Seq::new(repeat as nat, |_k: int| value) =~= Seq::new(repeat as nat, |_k: int| cells[p as int]));
        Ok(())
    }

    fn read_times(&mut self, offset: isize, repeat: usize) -> (r: Result<(), Error>)
        requires
            old(self).wf(),
        ensures
            final(self).wf(),
            final(self).now == old(self).now,
            final(self).program() == old(self).program(),
            match input_times(old(self).snapshot(), offset as int, repeat as nat) {
                Ok(t) => r is Ok && final(self).snapshot() == t,
                Err(e) => r == Err::<(), Error>(e)
                    && final(self).snapshot() == input_reached(old(self).snapshot(), offset as int, repeat as nat),
            },
    {
        let mut k: usize = 0;
        while k < repeat
            invariant
                self.wf(),
                self.now == old(self).now,
                self.program() == old(self).program(),
                k <= repeat,
                input_times(old(self).snapshot(), offset as int, k as nat) == Ok::<Snapshot, Error>(self.snapshot()),
            decreases repeat - k,
        {
            if self.input_pos >= self.input.len() {
                proof {
                    lemma_input_times_fail(old(self).snapshot(), offset as int, (k + 1) as nat, repeat as nat);
                    lemma_reads_stop(old(self).snapshot(), offset as int, k as nat, repeat as nat);
                }
                return Err(Error::EndOfInput);
            }
            let byte = self.input[self.input_pos];
            let ghost before = self.snapshot();
            match self.locate(offset) {
                Ok(p) => {
                    self.state.memory.store(p, byte);
                    self.input_pos = self.input_pos + 1;
                    proof {
                        assert(self.input@.skip(self.input_pos as int) =~= before.input.drop_first());
                        assert(self.snapshot() == (Snapshot {
                            cells: locate(before, offset as int)->Ok_0.0.update(locate(before, offset as int)->Ok_0.1, before.input[0]),
                            input: before.input.drop_first(),
                            ..before
                        }));
                    }
                },
                Err(e) => {
                    proof {
                        lemma_input_times_fail(old(self).snapshot(), offset as int, (k + 1) as nat, repeat as nat);
                        lemma_reads_stop(old(self).snapshot(), offset as int, k as nat, repeat as nat);
                    }
                    return Err(e);
                },
            }
            k = k + 1;
        }
        Ok(())
    }

    fn execute(&mut self, instruction: Instruction) -> (r: Result<(), Error>)
        requires
            old(self).wf(),
        ensures
            final(self).wf(),
            final(self).now == old(self).now,
            final(self).program() == old(self).program(),
            match effect(instruction, old(self).snapshot()) {
                Ok(t) => r is Ok && final(self).snapshot() == t,
                Err(e) => r == Err::<(), Error>(e) && final(self).snapshot() == effect_failed(instruction, old(self).snapshot()),
            },
    {
        match instruction {
            Instruction::PtrIncrement(n) => {
                if self.state.pointer > usize::MAX - n {
                    return Err(Error::PointerOverflow);
                }
                self.state.pointer = self.state.pointer + n;
                Ok(())
            },
            Instruction::PtrDecrement(n) => {
                if self.state.pointer < n {
                    let p: i128 = self.state.pointer as i128 - n as i128;
                    return Err(Error::NegativePointer(p as isize));
                }
                self.state.pointer = self.state.pointer - n;
                Ok(())
            },
            Instruction::Add(offset, value) => {
                let x = self.operand(value)?;
                if x != 0 {
                    self.change(offset, x, false)
                } else {
                    Ok(())
                }
            },
            Instruction::Sub(offset, value) => {
                let x = self.operand(value)?;
                if x != 0 {
                    self.change(offset, x, true)
                } else {
                    Ok(())
                }
            },
            Instruction::MulAdd(to, from, value) => {
                let n = self.operand(Value::Memory(from))?;
                if n != 0 {
                    self.change(to, n.wrapping_mul(value), false)
                } else {
                    Ok(())
                }
            },
            Instruction::MulSub(to, from, value) => {
                let n = self.operand(Value::Memory(from))?;
                if n != 0 {
                    self.change(to, n.wrapping_mul(value), true)
                } else {
                    Ok(())
                }
            },
            Instruction::Output(offset, repeat) => self.write_times(offset, repeat),
            Instruction::Input(offset, repeat) => self.read_times(offset, repeat),
            Instruction::SetValue(offset, value) => {
                let x = self.operand(value)?;
                let p = self.locate(offset)?;
                self.state.memory.store(p, x);
                Ok(())
            },
        }
    }

    /// Runs the instruction at the program counter. Past the last instruction it does nothing;
    /// on an error the counter stays where it is.
    pub fn step(&mut self) -> (r: Result<(), Error>)
        requires
            old(self).wf(),
        ensures
            final(self).wf(),
            final(self).program() == old(self).program(),
            final(self).snapshot().pc <= final(self).program().len(),
            old(self).snapshot().pc >= old(self).program().len() ==> r is Ok && final(self).snapshot() == old(self).snapshot(),
            old(self).snapshot().pc < old(self).program().len() ==> match c_step(old(self).program(), old(self).snapshot()) {
                Ok(t) => r == Ok::<(), Error>(()) && final(self).snapshot() == t,
                Err(e) => r == Err::<(), Error>(e)
                    && final(self).snapshot() == c_step_failed(old(self).program(), old(self).snapshot()),
            },
    {
        if self.now < self.instructions.len() {
            let at = self.now;
            match self.instructions[at] {
                CInstruction::Instruction(instruction) => {
                    self.execute(instruction)?;
                    self.now = at + 1;
                },
                CInstruction::WhileBegin(to) => {
                    let p = self.locate(0)?;
                    if self.state.memory.load(p) == 0 {
                        self.now = to;
                    } else {
                        self.now = at + 1;
                    }
                },
                CInstruction::WhileEnd(to) => {
                    self.now = to;
                },
            }
        }
        Ok(())
    }

    /// The next step, or `None` once the program has run past its last instruction.
    pub fn next(&mut self) -> (r: Option<Result<(), Error>>)
        requires
            old(self).wf(),
        ensures
            final(self).wf(),
            final(self).program() == old(self).program(),
            final(self).snapshot().pc <= final(self).program().len(),
            r is None ==> final(self).snapshot().pc == final(self).program().len(),
            old(self).snapshot().pc >= old(self).program().len() ==> r is None && final(self).snapshot() == old(self).snapshot(),
            old(self).snapshot().pc < old(self).program().len() ==> match c_step(old(self).program(), old(self).snapshot()) {
                Ok(t) => r == Some(Ok::<(), Error>(())) && final(self).snapshot() == t,
                Err(e) => r == Some(Err::<(), Error>(e))
                    && final(self).snapshot() == c_step_failed(old(self).program(), old(self).snapshot()),
            },
    {
        if self.now < self.instructions.len() {
            Some(self.step())
        } else {
            None
        }
    }
}

/// Once a read fails, repeated reading stops where the reads before it left the snapshot.
proof fn lemma_input_reached_down(s: Snapshot, offset: int, k: nat, n: nat)
    requires
        k <= n,
        input_times(s, offset, k) is Ok,
        forall|j: nat| k < j <= n ==> #[trigger] input_times(s, offset, j) is Err,
    ensures
        input_reached(s, offset, n) == input_times(s, offset, k)->Ok_0,
    decreases n,
{
    if n > k {
        assert(input_times(s, offset, n) is Err);
        lemma_input_reached_down(s, offset, k, (n - 1) as nat);
    } else {
        if n > 0 {
            assert(input_times(s, offset, n) is Ok);
        } else {
            assert(input_times(s, offset, 0) == Ok::<Snapshot, Error>(s));
        }
    }
}

proof fn lemma_reads_stop(s: Snapshot, offset: int, k: nat, n: nat)
    requires
        k < n,
        input_times(s, offset, k) is Ok,
        input_times(s, offset, k + 1) is Err,
    ensures
        input_reached(s, offset, n) == input_times(s, offset, k)->Ok_0,
{
    assert forall|j: nat| k < j <= n implies #[trigger] input_times(s, offset, j) is Err by {
        lemma_input_times_fail(s, offset, k + 1, j);
    }
    lemma_input_reached_down(s, offset, k, n);
}

proof fn lemma_input_times_fail(s: Snapshot, offset: int, k: nat, n: nat)
    requires
        1 <= k <= n,
        input_times(s, offset, k) is Err,
    ensures
        input_times(s, offset, n) == input_times(s, offset, k),
    decreases n - k,
{
    if k < n {
        lemma_input_times_fail(s, offset, k + 1, n);
    }
}

pub struct InterPrinterBuilder<'a> {
    pub root_node: Option<&'a Nods>,
    pub memory_len: usize,
    pub input: Option<Vec<u8>>,
    pub output: Option<Vec<u8>>,
}

impl<'a> Default for InterPrinterBuilder<'a> {
    fn default() -> (r: Self)
        ensures
            r.root_node is None,
            r.memory_len == 1,
            r.input is None,
            r.output is None,
    {
        Self { root_node: None, memory_len: 1, input: None, output: None }
    }
}

impl<'a> InterPrinterBuilder<'a> {
    pub fn root_node(self, root_node: &'a Nods) -> (r: Self)
        ensures
            r == (Self { root_node: Some(root_node), ..self }),
    {
        Self { root_node: Some(root_node), ..self }
    }

    /// The number of zero cells the memory starts with; it must be positive.
    pub fn memory_len(self, memory_len: usize) -> (r: Self)
        requires
            memory_len > 0,
        ensures
            r == (Self { memory_len, ..self }),
    {
        Self { memory_len, ..self }
    }

    pub fn input(self, input: Vec<u8>) -> (r: Self)
        ensures
            r == (Self { input: Some(input), ..self }),
    {
        Self { input: Some(input), ..self }
    }

    pub fn output(self, output: Vec<u8>) -> (r: Self)
        ensures
            r == (Self { output: Some(output), ..self }),
    {
        Self { output: Some(output), ..self }
    }

    pub fn build(self) -> (r: InterPrinter)
        requires
            self.root_node is Some,
            self.input is Some,
            self.output is Some,
            self.memory_len > 0,
            c_flattenable(self.root_node->0@),
        ensures
            r.wf(),
            r.program() == c_flatten(self.root_node->0@, 0),
            r.snapshot() == (Snapshot {
                pc: 0,
                ptr: 0,
                cells: Seq::new(self.memory_len as nat, |_i: int| 0u8),
                input: self.input->0@,
                output: self.output->0@,
            }),
    {
        let Self { root_node, memory_len, input, output } = self;
        match (root_node, input, output) {
            (Some(root_node), Some(input), Some(output)) => InterPrinter::new(root_node, memory_len, input, output),
            _ => {
                proof { assert(false); }
                InterPrinter::new(&Vec::new(), 1, Vec::new(), Vec::new())
            },
        }
    }
}

} // verus!
