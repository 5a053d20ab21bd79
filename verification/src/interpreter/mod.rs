//! An interpreter for blocks: the block is flattened into a list of instructions
//! with jump targets, which a program counter walks one step at a time.

use vstd::prelude::*;
use crate::ir::{Block, BlockItem, ItemModel, Op, items_model, lemma_items_model_index, lemma_items_model_len};
use crate::instruction::wrap;

pub mod memory;
pub mod simulation;

pub use memory::{AutoExtendMemory, Memory};

verus! {

/// One instruction of a flattened block.
#[derive(Debug, Clone, Copy, PartialEq, Eq, Structural)]
pub enum FlatInstruction {
    Instruction(Op),
    /// Jumps to the target when the current cell is zero.
    WhileBegin(usize),
    /// Jumps back to the loop's `WhileBegin`.
    WhileEnd(usize),
}

/// The flat instructions of an item placed at position `at`.
pub open spec fn flatten_item(item: ItemModel, at: int) -> Seq<FlatInstruction>
    decreases item,
{
    match item {
        ItemModel::Op(op) => seq![FlatInstruction::Instruction(op)],
        ItemModel::Loop(body) => {
            let inner = flatten(body, at + 1);
            seq![FlatInstruction::WhileBegin((at + inner.len() + 2) as usize)] + inner
                + seq![FlatInstruction::WhileEnd(at as usize)]
        },
        ItemModel::If(body) => {
            let inner = flatten(body, at + 1);
            seq![FlatInstruction::WhileBegin((at + inner.len() + 1) as usize)] + inner
        },
    }
}

/// The flat instructions of a sequence of items placed at position `at`: a loop opens
/// with a jump past its end and closes with a jump back to its start; a conditional
/// opens with a jump past its end and falls through at its end.
pub open spec fn flatten(items: Seq<ItemModel>, at: int) -> Seq<FlatInstruction>
    decreases items,
{
    if items.len() == 0 {
        Seq::empty()
    } else {
        let front = flatten(items.drop_last(), at);
        front + flatten_item(items.last(), at + front.len())
    }
}

proof fn lemma_flatten_prefix(items: Seq<ItemModel>, i: int, at: int)
    requires
        0 <= i < items.len(),
    ensures
        flatten(items.take(i + 1), at) == flatten(items.take(i), at)
            + flatten_item(items[i], at + flatten(items.take(i), at).len()),
{
    assert(items.take(i + 1).drop_last() =~= items.take(i));
}

/// Flattening a block needs a program that counts fewer than `usize::MAX` instructions.
pub open spec fn flattenable(b: Block) -> bool {
    flatten(b@, 0).len() < usize::MAX
}

proof fn lemma_flatten_len_prefix(items: Seq<ItemModel>, i: int, at: int, at2: int)
    requires
        0 <= i <= items.len(),
    ensures
        flatten(items.take(i), at).len() <= flatten(items, at2).len(),
        flatten(items, at).len() == flatten(items, at2).len(),
    decreases items.len(), items.len() - i,
{
    if i < items.len() {
        lemma_flatten_len_prefix(items, i + 1, at, at2);
        lemma_flatten_prefix(items, i, at);
    } else {
        assert(items.take(i) =~= items);
        lemma_flatten_len_shift(items, at, at2);
    }
}

proof fn lemma_flatten_len_shift(items: Seq<ItemModel>, at: int, at2: int)
    ensures
        flatten(items, at).len() == flatten(items, at2).len(),
    decreases items,
{
    if items.len() > 0 {
        lemma_flatten_len_shift(items.drop_last(), at, at2);
        let f1 = flatten(items.drop_last(), at);
        let f2 = flatten(items.drop_last(), at2);
        match items.last() {
            ItemModel::Loop(body) => {
                lemma_flatten_len_shift(body, at + f1.len() + 1, at2 + f2.len() + 1);
            },
            ItemModel::If(body) => {
                lemma_flatten_len_shift(body, at + f1.len() + 1, at2 + f2.len() + 1);
            },
            _ => {},
        }
        assert(flatten_item(items.last(), at + f1.len()).len() == flatten_item(items.last(), at2 + f2.len()).len());
        assert(flatten(items, at) == f1 + flatten_item(items.last(), at + f1.len()));
        assert(flatten(items, at2) == f2 + flatten_item(items.last(), at2 + f2.len()));
    }
}

fn flatten_into(flat_instructions: &mut Vec<FlatInstruction>, block: &Block)
    requires
        old(flat_instructions)@.len() + flatten(block@, old(flat_instructions)@.len() as int).len() < usize::MAX,
    ensures
        final(flat_instructions)@ == old(flat_instructions)@ + flatten(block@, old(flat_instructions)@.len() as int),
    decreases block,
{
    let ghost base = flat_instructions@.len() as int;
    let ghost start = flat_instructions@;
    let mut i: usize = 0;
    proof {
        lemma_items_model_len(block.items@);
        assert(block@.take(0) =~= Seq::<ItemModel>::empty());
        assert(start + Seq::<FlatInstruction>::empty() =~= start);
    }
    while i < block.items.len()
        invariant
            i <= block.items@.len(),
            block@.len() == block.items@.len(),
            base == start.len(),
            base + flatten(block@, base).len() < usize::MAX,
            flat_instructions@ == start + flatten(block@.take(i as int), base),
        decreases block.items@.len() - i,
    {
        proof {
            lemma_items_model_index(block.items@, i as int);
            lemma_flatten_prefix(block@, i as int, base);
            lemma_flatten_len_prefix(block@, i as int + 1, base, base);
        }
        let ghost here = flat_instructions@.len() as int;
        match &block.items[i] {
            BlockItem::Loop(loop_block) => {
                let loop_first = flat_instructions.len();
                let begin_index = flat_instructions.len();
                flat_instructions.push(FlatInstruction::WhileBegin(0));
                proof {
                    lemma_flatten_len_shift(loop_block@, here + 1, base);
                    assert(decreases_to!(block => block.items));
                }
                flatten_into(flat_instructions, loop_block);
                let target = flat_instructions.len() + 1;
                flat_instructions.set(begin_index, FlatInstruction::WhileBegin(target));
                flat_instructions.push(FlatInstruction::WhileEnd(loop_first));
            },
            BlockItem::Op(op) => flat_instructions.push(FlatInstruction::Instruction(*op)),
            BlockItem::If(if_block) => {
                let begin_index = flat_instructions.len();
                flat_instructions.push(FlatInstruction::WhileBegin(0));
                proof {
                    lemma_flatten_len_shift(if_block@, here + 1, base);
                }
                flatten_into(flat_instructions, if_block);
                let target = flat_instructions.len();
                flat_instructions.set(begin_index, FlatInstruction::WhileBegin(target));
            },
        }
        proof {
            assert(flat_instructions@ =~= start + flatten(block@.take(i as int + 1), base));
        }
        i = i + 1;
    }
    proof {
        assert(block@.take(block@.len() as int) =~= block@);
    }
}

fn block_to_flat_instructions(block: &Block) -> (r: Vec<FlatInstruction>)
    requires
        flattenable(*block),
    ensures
        r@ == flatten(block@, 0),
{
    let mut instructions: Vec<FlatInstruction> = Vec::new();
    flatten_into(&mut instructions, block);
    assert(Seq::<FlatInstruction>::empty() + flatten(block@, 0) =~= flatten(block@, 0));
    instructions
}


#[derive(Debug, Clone, Copy, PartialEq, Eq, Structural)]
pub enum Error {
    /// A read found no byte left to read.
    EndOfInput,
    /// A cell before the first one was addressed.
    NegativePointer(isize),
    /// The pointer moved past the largest address.
    PointerOverflow,
    /// A cell was addressed that the memory cannot hold.
    OutOfMemory,
    /// The program ran for `usize::MAX` steps without halting.
    StepLimit,
}

/// What an interpreter step did.
#[derive(Debug, Clone, Copy, PartialEq, Eq, Structural)]
pub enum Step {
    /// The program counter is past the last instruction.
    Halted,
    /// The next instruction reads, and no input is left; nothing was done.
    NeedInput,
    /// The instruction at this position was fetched and executed.
    Fetched(usize),
    /// A scan (`Op::Lick`) moved one more time and goes on at the same position.
    Continued,
}

/// The state of a running program.
pub struct Machine {
    pub pc: int,
    pub ptr: int,
    pub cells: Seq<u8>,
    /// What is left to read.
    pub input: Seq<u8>,
    /// What was written.
    pub output: Seq<u8>,
    /// A scan is under way at `pc`.
    pub scanning: bool,
}

/// The cells after making room for the cell at `offset` from the pointer, and its address.
pub open spec fn address<M: Memory>(m: Machine, offset: int) -> Result<(Seq<u8>, int), Error> {
    let p = m.ptr + offset;
    if p < 0 {
        Err(Error::NegativePointer(p as isize))
    } else if p > usize::MAX {
        Err(Error::OutOfMemory)
    } else {
        match M::room(m.cells, p) {
            Some(c) => Ok((c, p)),
            None => Err(Error::OutOfMemory),
        }
    }
}

pub open spec fn with_cells(m: Machine, cells: Seq<u8>) -> Machine {
    Machine { cells: cells, ..m }
}

/// The pointer moved by `by`.
pub open spec fn moved(m: Machine, by: int) -> Result<Machine, Error> {
    if m.ptr + by < 0 {
        Err(Error::NegativePointer((m.ptr + by) as isize))
    } else if m.ptr + by > usize::MAX {
        Err(Error::PointerOverflow)
    } else {
        Ok(Machine { ptr: m.ptr + by, ..m })
    }
}

/// The cell at `offset` from the pointer with `f` of its old value stored into it.
pub open spec fn update_cell<M: Memory>(m: Machine, offset: int, f: spec_fn(u8) -> u8) -> Result<Machine, Error> {
    match address::<M>(m, offset) {
        Err(e) => Err(e),
        Ok((c, p)) => Ok(with_cells(m, c.update(p, f(c[p])))),
    }
}

/// One operation; the program counter is left where it is.
pub open spec fn op_effect<M: Memory>(op: Op, m: Machine) -> Result<Machine, Error> {
    match op {
        Op::MovePtr(by) => moved(m, by as int),
        Op::Add(value, offset) => update_cell::<M>(m, offset as int, |v: u8| wrap(v + value)),
        Op::Assign(value, offset) => update_cell::<M>(m, offset as int, |v: u8| wrap(value as int)),
        Op::Mul(to, x, offset) => match address::<M>(m, offset as int) {
            Err(e) => Err(e),
            Ok((c, p)) => {
                let v = c[p];
                update_cell::<M>(with_cells(m, c), to + offset, |w: u8| wrap(w + v * x))
            },
        },
        Op::Out(offset) => match address::<M>(m, offset as int) {
            Err(e) => Err(e),
            Ok((c, p)) => Ok(Machine { cells: c, output: m.output.push(c[p]), ..m }),
        },
        Op::Input(offset) => if m.input.len() == 0 {
            Err(Error::EndOfInput)
        } else {
            match address::<M>(m, offset as int) {
                Err(e) => Err(e),
                Ok((c, p)) => Ok(Machine { cells: c.update(p, m.input[0]), input: m.input.drop_first(), ..m }),
            }
        },
        Op::Lick(_) => Ok(m),
    }
}

/// The machine that a failed operation leaves: a multiplication may have made room for the
/// cell it reads before the cell it writes failed; no other operation changes anything.
pub open spec fn op_failed<M: Memory>(op: Op, m: Machine) -> Machine {
    match op {
        Op::Mul(_, _, offset) => match address::<M>(m, offset as int) {
            Ok((c, _)) => with_cells(m, c),
            Err(_) => m,
        },
        _ => m,
    }
}

/// The machine that a failed step leaves: the pointer, the counter, the input and the output
/// stay; a scan may have made room for the current cell before its move failed.
pub open spec fn step_failed<M: Memory>(prog: Seq<FlatInstruction>, m: Machine) -> Machine {
    match prog[m.pc] {
        FlatInstruction::Instruction(Op::Lick(_)) => match address::<M>(m, 0) {
            Ok((c, _)) => with_cells(m, c),
            Err(_) => m,
        },
        FlatInstruction::Instruction(op) => op_failed::<M>(op, m),
        _ => m,
    }
}

/// One step of a program whose counter is in range: an operation runs and the counter
/// moves on; a scan moves the pointer by its step while the current cell is not zero,
/// one move per step; a loop start jumps to its target on a zero cell; a loop end jumps back.
pub open spec fn step_spec<M: Memory>(prog: Seq<FlatInstruction>, m: Machine) -> Result<Machine, Error> {
    match prog[m.pc] {
        FlatInstruction::Instruction(Op::Lick(by)) => match address::<M>(m, 0) {
            Err(e) => Err(e),
            Ok((c, p)) => if c[p] != 0 {
                match moved(with_cells(m, c), by as int) {
                    Err(e) => Err(e),
                    Ok(n) => Ok(Machine { scanning: true, ..n }),
                }
            } else {
                Ok(Machine { cells: c, pc: m.pc + 1, scanning: false, ..m })
            },
        },
        FlatInstruction::Instruction(op) => match op_effect::<M>(op, m) {
            Err(e) => Err(e),
            Ok(n) => Ok(Machine { pc: m.pc + 1, scanning: false, ..n }),
        },
        FlatInstruction::WhileBegin(to) => match address::<M>(m, 0) {
            Err(e) => Err(e),
            Ok((c, p)) => Ok(Machine { cells: c, pc: if c[p] == 0 { to as int } else { m.pc + 1 }, ..m }),
        },
        FlatInstruction::WhileEnd(to) => Ok(Machine { pc: to as int, ..m }),
    }
}

pub open spec fn halted(prog: Seq<FlatInstruction>, m: Machine) -> bool {
    !(0 <= m.pc < prog.len())
}

/// A run of `n` steps from `m`, stopping early on halting: the state reached, the number
/// of instructions fetched (a scan counts once), and how often each position was fetched.
pub open spec fn run_trace<M: Memory>(prog: Seq<FlatInstruction>, m: Machine, n: nat) -> Result<(Machine, nat, Seq<nat>), Error>
    decreases n,
{
    if n == 0 {
        Ok((m, 0, Seq::new(prog.len(), |_i: int| 0nat)))
    } else {
        match run_trace::<M>(prog, m, (n - 1) as nat) {
            Err(e) => Err(e),
            Ok((m1, k, hits)) => if halted(prog, m1) {
                Ok((m1, k, hits))
            } else {
                match step_spec::<M>(prog, m1) {
                    Err(e) => Err(e),
                    Ok(m2) => if m1.scanning {
                        Ok((m2, k, hits))
                    } else {
                        Ok((m2, k + 1, hits.update(m1.pc, hits[m1.pc] + 1)))
                    },
                }
            },
        }
    }
}

struct State<M: Memory> {
    pointer: usize,
    memory: M,
}

/// The result of a profiled run: the number of instructions fetched, the instructions,
/// and how often each one was fetched (saturating at `i32::MAX`).
pub struct ProfilingResult {
    pub count: usize,
    pub instructions: Vec<FlatInstruction>,
    pub instruction_count: Vec<i32>,
}

pub struct InterPreter<M: Memory> {
    state: State<M>,
    input: Vec<u8>,
    input_pos: usize,
    output: Vec<u8>,
    instructions: Vec<FlatInstruction>,
    now: usize,
    scanning: bool,
}

impl<M: Memory> InterPreter<M> {
    pub closed spec fn program(&self) -> Seq<FlatInstruction> {
        self.instructions@
    }

    pub closed spec fn machine(&self) -> Machine {
        Machine {
            pc: self.now as int,
            ptr: self.state.pointer as int,
            cells: self.state.memory.cells(),
            input: self.input@.skip(self.input_pos as int),
            output: self.output@,
            scanning: self.scanning,
        }
    }

    pub closed spec fn wf(&self) -> bool {
        &&& self.input_pos <= self.input@.len()
        &&& self.instructions@.len() < usize::MAX
        &&& forall|i: int| 0 <= i < self.instructions@.len() ==> match #[trigger] self.instructions@[i] {
            FlatInstruction::WhileBegin(t) | FlatInstruction::WhileEnd(t) => t < usize::MAX,
            _ => true,
        }
    }

    pub fn builder<'a>() -> (r: InterPreterBuilder<'a, M>)
        ensures
            r.root_node is None,
            r.memory is None,
            r.input is None,
            r.output is None,
    {
        InterPreterBuilder { root_node: None, memory: None, input: None, output: None }
    }

    fn new(block: &Block, input: Vec<u8>, output: Vec<u8>, memory: M) -> (r: Self)
        requires
            flattenable(*block),
        ensures
            r.wf(),
            r.program() == flatten(block@, 0),
            r.machine() == (Machine { pc: 0, ptr: 0, cells: memory.cells(), input: input@, output: output@, scanning: false }),
    {
        let state = State { pointer: 0, memory };
        let instructions = block_to_flat_instructions(block);
        proof {
            lemma_flatten_targets(block@, 0);
            assert forall|i: int| 0 <= i < instructions@.len() implies match #[trigger] instructions@[i] {
                FlatInstruction::WhileBegin(t) | FlatInstruction::WhileEnd(t) => t < usize::MAX,
                _ => true,
            } by {
                assert(target_within(instructions@[i], instructions@.len() as int));
            }
        }
        let r = Self { state, input, input_pos: 0, output, instructions, now: 0, scanning: false };
        assert(r.input@.skip(0) =~= r.input@);
        r
    }

    pub fn memory(&self) -> (r: &[u8])
        ensures
            r@ == self.machine().cells,
    {
        self.state.memory.inner()
    }

    pub fn pointer(&self) -> (r: usize)
        ensures
            r == self.machine().ptr,
    {
        self.state.pointer
    }

    /// What the program has written so far.
    pub fn output(&self) -> (r: &[u8])
        ensures
            r@ == self.machine().output,
    {
        self.output.as_slice()
    }

    /// Queues a byte for the program to read.
    pub fn push_input(&mut self, byte: u8)
        requires
            old(self).wf(),
        ensures
            final(self).wf(),
            final(self).program() == old(self).program(),
            final(self).machine() == (Machine { input: old(self).machine().input.push(byte), ..old(self).machine() }),
    {
        self.input.push(byte);
        assert(self.input@.skip(self.input_pos as int) =~= old(self).input@.skip(self.input_pos as int).push(byte));
    }

    /// Hands over what the program has written so far, and forgets it.
    pub fn take_output(&mut self) -> (r: Vec<u8>)
        requires
            old(self).wf(),
        ensures
            final(self).wf(),
            final(self).program() == old(self).program(),
            r@ == old(self).machine().output,
            final(self).machine() == (Machine { output: Seq::empty(), ..old(self).machine() }),
    {
        let mut out: Vec<u8> = Vec::new();
        std::mem::swap(&mut out, &mut self.output);
        out
    }

    pub fn iter(&mut self) -> (r: InterPreterIter<'_, M>)
        ensures
            *r.0 == *old(self),
            *final(self) == *final(r.0),
    {
        InterPreterIter(self)
    }

    /// Makes room for the cell at `offset` from the pointer; returns its address.
    fn locate(&mut self, offset: i64) -> (r: Result<usize, Error>)
        requires
            old(self).wf(),
        ensures
            final(self).wf(),
            final(self).now == old(self).now,
            final(self).program() == old(self).program(),
            match address::<M>(old(self).machine(), offset as int) {
                Ok((c, p)) => r == Ok::<usize, Error>(p as usize)
                    && final(self).machine() == with_cells(old(self).machine(), c),
                Err(e) => r == Err::<usize, Error>(e) && final(self).machine() == old(self).machine(),
            },
    {
        let p: i128 = self.state.pointer as i128 + offset as i128;
        if p < 0 {
            return Err(Error::NegativePointer(p as isize));
        }
        if p > usize::MAX as i128 {
            return Err(Error::OutOfMemory);
        }
        let p = p as usize;
        if self.state.memory.make_room(p) {
            Ok(p)
        } else {
            Err(Error::OutOfMemory)
        }
    }

    /// The byte `value` wraps to.
    fn wrap_i32(value: i32) -> (r: u8)
        ensures
            r == wrap(value as int),
    {
        let x = value % 256;
        if x < 0 {
            (x + 256) as u8
        } else {
            x as u8
        }
    }

    /// Adds `value` to the byte `v`, wrapping around.
    #[verifier::spinoff_prover]
    #[verifier::rlimit(40)]
    fn add_wrapping(v: u8, value: i32) -> (r: u8)
        ensures
            r == wrap(v + value),
    {
        let x = value % 256;
        let r = if x > 0 {
            v.wrapping_add(x as u8)
        } else {
            v.wrapping_sub((-x) as u8)
        };
        proof {
            vstd::arithmetic::div_mod::lemma_add_mod_noop(v as int, value as int, 256);
            vstd::arithmetic::div_mod::lemma_add_mod_noop(v as int, x as int, 256);
        }
        r
    }

    fn apply_op(&mut self, op: Op) -> (r: Result<(), Error>)
        requires
            old(self).wf(),
            !(op is Lick),
            op is Input ==> old(self).machine().input.len() > 0,
        ensures
            final(self).wf(),
            final(self).program() == old(self).program(),
            final(self).now == old(self).now,
            match op_effect::<M>(op, old(self).machine()) {
                Ok(n) => r is Ok && final(self).machine() == (Machine { scanning: old(self).scanning, ..n }),
                Err(e) => r == Err::<(), Error>(e) && final(self).machine() == op_failed::<M>(op, old(self).machine()),
            },
    {
        match op {
            Op::MovePtr(offset) => self.move_pointer(offset),
            Op::Add(value, to_offset) => {
                let p = self.locate(to_offset as i64)?;
                proof { M::lemma_room(old(self).machine().cells, p as int); }
                let v = self.state.memory.load(p);
                self.state.memory.store(p, Self::add_wrapping(v, value));
                Ok(())
            },
            Op::Mul(to, x, offset) => {
                let p = self.locate(offset as i64)?;
                proof { M::lemma_room(old(self).machine().cells, p as int); }
                let value = self.state.memory.load(p);
                let ghost mid = self.machine();
                let q = self.locate(to as i64 + offset as i64)?;
                proof { M::lemma_room(mid.cells, q as int); }
                let w = self.state.memory.load(q);
                let product = (value as i32).wrapping_mul(x);
                proof { lemma_crop_wrap(w as int, value * x); }
                self.state.memory.store(q, Self::add_wrapping(w, product));
                Ok(())
            },
            Op::Out(offset) => {
                let p = self.locate(offset as i64)?;
                proof { M::lemma_room(old(self).machine().cells, p as int); }
                let v = self.state.memory.load(p);
                self.output.push(v);
                Ok(())
            },
            Op::Input(offset) => {
                let b = self.input[self.input_pos];
                let p = self.locate(offset as i64)?;
                proof { M::lemma_room(old(self).machine().cells, p as int); }
                self.state.memory.store(p, b);
                assert(self.machine().input.len() > 0);
                let n = self.input.len();
                assert(self.input_pos < n);
                self.input_pos = self.input_pos + 1;
                assert(self.input@.skip(self.input_pos as int) =~= old(self).input@.skip(old(self).input_pos as int).drop_first());
                Ok(())
            },
            Op::Assign(value, offset) => {
                let p = self.locate(offset as i64)?;
                proof { M::lemma_room(old(self).machine().cells, p as int); }
                self.state.memory.store(p, Self::wrap_i32(value));
                Ok(())
            },
            Op::Lick(_) => Ok(()),
        }
    }

    /// Runs the instruction at the program counter, or part of it for a scan.
    pub fn step(&mut self) -> (r: Result<Step, Error>)
        requires
            old(self).wf(),
        ensures
            final(self).wf(),
            final(self).program() == old(self).program(),
            halted(old(self).program(), old(self).machine()) ==> r == Ok::<Step, Error>(Step::Halted)
                && final(self).machine() == old(self).machine(),
            !halted(old(self).program(), old(self).machine()) ==> match step_spec::<M>(old(self).program(), old(self).machine()) {
                Ok(m) => final(self).machine() == m && r == Ok::<Step, Error>(
                    if old(self).machine().scanning { Step::Continued } else { Step::Fetched(old(self).machine().pc as usize) }),
                Err(Error::EndOfInput) => r == Ok::<Step, Error>(Step::NeedInput) && final(self).machine() == old(self).machine(),
                Err(e) => r == Err::<Step, Error>(e)
                    && final(self).machine() == step_failed::<M>(old(self).program(), old(self).machine()),
            },
    {
        if self.now >= self.instructions.len() {
            return Ok(Step::Halted);
        }
        let at = self.now;
        let was_scanning = self.scanning;
        let outcome = if was_scanning { Step::Continued } else { Step::Fetched(at) };
        match self.instructions[at] {
            FlatInstruction::Instruction(Op::Lick(by)) => {
                let p = self.locate(0)?;
                proof { M::lemma_room(old(self).machine().cells, p as int); }
                if self.state.memory.load(p) != 0 {
                    self.move_pointer(by)?;
                    self.scanning = true;
                } else {
                    self.now = at + 1;
                    self.scanning = false;
                }
            },
            FlatInstruction::Instruction(op) => {
                if matches!(op, Op::Input(_)) && self.input_pos == self.input.len() {
                    return Ok(Step::NeedInput);
                }
                self.apply_op(op)?;
                self.now = at + 1;
                self.scanning = false;
            },
            FlatInstruction::WhileBegin(to) => {
                let p = self.locate(0)?;
                proof { M::lemma_room(old(self).machine().cells, p as int); }
                if self.state.memory.load(p) == 0 {
                    self.now = to;
                } else {
                    self.now = at + 1;
                }
            },
            FlatInstruction::WhileEnd(to) => {
                self.now = to;
            },
        }
        Ok(outcome)
    }

    /// Runs until the program halts. Returns the number of instructions fetched
    /// (a scan counts once). A read with no input left fails with `EndOfInput`.
    pub fn run(&mut self) -> (r: Result<usize, Error>)
        requires
            old(self).wf(),
        ensures
            final(self).wf(),
            final(self).program() == old(self).program(),
            match r {
                Ok(c) => exists|n: nat| #[trigger] run_trace::<M>(old(self).program(), old(self).machine(), n) matches Ok((m, k, _))
                    && m == final(self).machine() && k == c && halted(old(self).program(), m),
                Err(Error::StepLimit) => run_trace::<M>(old(self).program(), old(self).machine(), usize::MAX as nat)
                    matches Ok((m, _, _)) && !halted(old(self).program(), m),
                Err(e) => (exists|n: nat| #[trigger] run_trace::<M>(old(self).program(), old(self).machine(), n) == Err::<(Machine, nat, Seq<nat>), Error>(e))
                    && exists|n: nat| #[trigger] run_trace::<M>(old(self).program(), old(self).machine(), n) matches Ok((m, _, _))
                        && !halted(old(self).program(), m) && step_spec::<M>(old(self).program(), m) == Err::<Machine, Error>(e)
                        && final(self).machine() == step_failed::<M>(old(self).program(), m),
            },
    {
        let mut counts: Vec<i32> = Vec::new();
        self._run(&mut counts, false)
    }

    /// Runs until the program halts, counting how often each instruction is fetched.
    pub fn profiling(self) -> (r: Result<ProfilingResult, Error>)
        requires
            self.wf(),
        ensures
            match r {
                Ok(p) => exists|n: nat| #[trigger] run_trace::<M>(self.program(), self.machine(), n) matches Ok((m, k, hits))
                    && halted(self.program(), m) && p.count == k
                    && p.instructions@ == self.program()
                    && p.instruction_count@.len() == self.program().len()
                    && forall|i: int| 0 <= i < self.program().len() ==> #[trigger] p.instruction_count@[i] as int
                        == if hits[i] > i32::MAX { i32::MAX as int } else { hits[i] as int },
                Err(Error::StepLimit) => run_trace::<M>(self.program(), self.machine(), usize::MAX as nat)
                    matches Ok((m, _, _)) && !halted(self.program(), m),
                Err(e) => exists|n: nat| #[trigger] run_trace::<M>(self.program(), self.machine(), n) == Err::<(Machine, nat, Seq<nat>), Error>(e),
            },
            r matches Ok(p) ==> ((forall|i: int| 0 <= i < p.instruction_count@.len() ==> #[trigger] p.instruction_count@[i] < i32::MAX)
                ==> counts_total(p.instruction_count@) == p.count),
    {
        let mut this = self;
        let mut instruction_count: Vec<i32> = Vec::new();
        let mut i: usize = 0;
        while i < this.instructions.len()
            invariant
                i <= this.instructions@.len(),
                this == self,
                instruction_count@ == Seq::new(i as nat, |_j: int| 0i32),
            decreases this.instructions@.len() - i,
        {
            instruction_count.push(0);
            i = i + 1;
            assert(instruction_count@ =~= Seq::new(i as nat, |_j: int| 0i32));
        }
        let ghost prog = self.program();
        let ghost start = self.machine();
        let count = this._run(&mut instruction_count, true)?;
        proof {
            let n = choose|n: nat| #[trigger] run_trace::<M>(prog, start, n) matches Ok((m, k, hits))
                && m == this.machine() && k == count
                && instruction_count@.len() == prog.len()
                && forall|i: int| 0 <= i < prog.len() ==> #[trigger] instruction_count@[i] as int
                    == if hits[i] > i32::MAX { i32::MAX as int } else { hits[i] as int };
            let (m, k, hits) = run_trace::<M>(prog, start, n)->Ok_0;
            lemma_trace_hits::<M>(prog, start, n);
            if forall|i: int| 0 <= i < instruction_count@.len() ==> #[trigger] instruction_count@[i] < i32::MAX {
                assert forall|i: int| 0 <= i < hits.len() implies #[trigger] hits[i] == instruction_count@[i] as int by {
                    assert(instruction_count@[i] < i32::MAX);
                }
                lemma_totals_agree(hits, instruction_count@);
            }
        }
        Ok(ProfilingResult { count, instruction_count, instructions: this.instructions })
    }

    fn _run(&mut self, counts: &mut Vec<i32>, tally: bool) -> (r: Result<usize, Error>)
        requires
            old(self).wf(),
            tally ==> old(counts)@ == Seq::new(old(self).program().len(), |_j: int| 0i32),
        ensures
            final(self).wf(),
            final(self).program() == old(self).program(),
            match r {
                Ok(c) => exists|n: nat| #[trigger] run_trace::<M>(old(self).program(), old(self).machine(), n) matches Ok((m, k, hits))
                    && m == final(self).machine() && k == c && halted(old(self).program(), m)
                    && (tally ==> final(counts)@.len() == old(self).program().len()
                        && forall|i: int| 0 <= i < old(self).program().len() ==> #[trigger] final(counts)@[i] as int
                            == if hits[i] > i32::MAX { i32::MAX as int } else { hits[i] as int }),
                Err(Error::StepLimit) => run_trace::<M>(old(self).program(), old(self).machine(), usize::MAX as nat)
                    matches Ok((m, _, _)) && !halted(old(self).program(), m),
                Err(e) => (exists|n: nat| #[trigger] run_trace::<M>(old(self).program(), old(self).machine(), n) == Err::<(Machine, nat, Seq<nat>), Error>(e))
                    && exists|n: nat| #[trigger] run_trace::<M>(old(self).program(), old(self).machine(), n) matches Ok((m, _, _))
                        && !halted(old(self).program(), m) && step_spec::<M>(old(self).program(), m) == Err::<Machine, Error>(e)
                        && final(self).machine() == step_failed::<M>(old(self).program(), m),
            },
    {
        let ghost prog = self.program();
        let ghost start = self.machine();
        let ghost mut hits: Seq<nat> = Seq::new(prog.len(), |_i: int| 0nat);
        let mut count: usize = 0;
        let mut steps: usize = 0;
        while steps < usize::MAX
            invariant
                self.wf(),
                self.program() == prog,
                prog == old(self).program(),
                start == old(self).machine(),
                count <= steps,
                hits.len() == prog.len(),
                run_trace::<M>(prog, start, steps as nat) == Ok::<(Machine, nat, Seq<nat>), Error>((self.machine(), count as nat, hits)),
                tally ==> counts@.len() == prog.len() && forall|i: int| 0 <= i < prog.len() ==> #[trigger] counts@[i] as int
                    == if hits[i] > i32::MAX { i32::MAX as int } else { hits[i] as int },
            decreases usize::MAX - steps,
        {
            let ghost before = self.machine();
            let ghost n1 = (steps + 1) as nat;
            assert(run_trace::<M>(prog, start, n1) == match run_trace::<M>(prog, start, (n1 - 1) as nat) {
                Err(e) => Err(e),
                Ok((m1, k, h)) => if halted(prog, m1) {
                    Ok((m1, k, h))
                } else {
                    match step_spec::<M>(prog, m1) {
                        Err(e) => Err(e),
                        Ok(m2) => if m1.scanning { Ok((m2, k, h)) } else { Ok((m2, k + 1, h.update(m1.pc, h[m1.pc] + 1))) },
                    }
                },
            });
            match self.step() {
                Err(e) => {
                    assert(run_trace::<M>(prog, start, n1) == Err::<(Machine, nat, Seq<nat>), Error>(e));
                    assert(run_trace::<M>(prog, start, steps as nat) matches Ok((m, _, _)) && m == before);
                    proof { lemma_step_never_limited::<M>(prog, before); }
                    return Err(e);
                },
                Ok(Step::Halted) => {
                    assert(run_trace::<M>(prog, start, steps as nat) matches Ok((m, k, _)) && m == self.machine() && k == count);
                    return Ok(count);
                },
                Ok(Step::NeedInput) => {
                    assert(run_trace::<M>(prog, start, n1) == Err::<(Machine, nat, Seq<nat>), Error>(Error::EndOfInput));
                    proof { lemma_end_of_input_changes_nothing::<M>(prog, before); }
                    assert(run_trace::<M>(prog, start, steps as nat) matches Ok((m, _, _)) && m == before);
                    return Err(Error::EndOfInput);
                },
                Ok(Step::Fetched(at)) => {
                    if tally {
                        let c = counts[at];
                        let c = if c < i32::MAX { c + 1 } else { c };
                        counts.set(at, c);
                    }
                    proof { hits = hits.update(before.pc, hits[before.pc] + 1); }
                    count = count + 1;
                },
                Ok(Step::Continued) => {},
            }
            steps = steps + 1;
        }
        if self.now >= self.instructions.len() {
            return Ok(count);
        }
        Err(Error::StepLimit)
    }

    fn move_pointer(&mut self, by: i32) -> (r: Result<(), Error>)
        requires
            old(self).wf(),
        ensures
            final(self).wf(),
            final(self).now == old(self).now,
            final(self).program() == old(self).program(),
            match moved(old(self).machine(), by as int) {
                Ok(n) => r is Ok && final(self).machine() == n,
                Err(e) => r == Err::<(), Error>(e) && final(self).machine() == old(self).machine(),
            },
    {
        if by < 0 {
            let value = (-(by as i64)) as usize;
            if self.state.pointer < value {
                return Err(Error::NegativePointer((self.state.pointer as i128 - value as i128) as isize));
            }
            self.state.pointer = self.state.pointer - value;
            Ok(())
        } else {
            let value = by as usize;
            if self.state.pointer > usize::MAX - value {
                return Err(Error::PointerOverflow);
            }
            self.state.pointer = self.state.pointer + value;
            Ok(())
        }
    }
}

/// A step that finds no input left has changed nothing.
proof fn lemma_end_of_input_changes_nothing<M: Memory>(prog: Seq<FlatInstruction>, m: Machine)
    requires
        0 <= m.pc < prog.len(),
        step_spec::<M>(prog, m) == Err::<Machine, Error>(Error::EndOfInput),
    ensures
        step_failed::<M>(prog, m) == m,
{
    if let FlatInstruction::Instruction(Op::Mul(to, x, offset)) = prog[m.pc] {
        if let Ok((c, p)) = address::<M>(m, offset as int) {
            let v = c[p];
            assert(update_cell::<M>(with_cells(m, c), to + offset, |w: u8| wrap(w + v * x)) is Err);
            assert(false);
        }
    }
}

/// How many fetches the hit counts add up to.
pub open spec fn hits_total(h: Seq<nat>) -> int
    decreases h.len(),
{
    if h.len() == 0 { 0 } else { hits_total(h.drop_last()) + h.last() }
}

/// What the counts of a profile add up to.
pub open spec fn counts_total(c: Seq<i32>) -> int
    decreases c.len(),
{
    if c.len() == 0 { 0 } else { counts_total(c.drop_last()) + c.last() }
}

proof fn lemma_hits_total_zero(len: nat)
    ensures
        hits_total(Seq::new(len, |_i: int| 0nat)) == 0,
    decreases len,
{
    if len > 0 {
        lemma_hits_total_zero((len - 1) as nat);
        assert(Seq::new(len, |_i: int| 0nat).drop_last() =~= Seq::new((len - 1) as nat, |_i: int| 0nat));
    }
}

proof fn lemma_hits_total_bump(h: Seq<nat>, i: int)
    requires
        0 <= i < h.len(),
    ensures
        hits_total(h.update(i, h[i] + 1)) == hits_total(h) + 1,
    decreases h.len(),
{
    let g = h.update(i, h[i] + 1);
    if i < h.len() - 1 {
        lemma_hits_total_bump(h.drop_last(), i);
        assert(g.drop_last() =~= h.drop_last().update(i, h[i] + 1));
    } else {
        assert(g.drop_last() =~= h.drop_last());
    }
}

/// The hit counts of a run add up to the number of fetches it counts.
pub proof fn lemma_trace_hits<M: Memory>(prog: Seq<FlatInstruction>, m: Machine, n: nat)
    requires
        run_trace::<M>(prog, m, n) is Ok,
    ensures
        (run_trace::<M>(prog, m, n)->Ok_0).2.len() == prog.len(),
        hits_total((run_trace::<M>(prog, m, n)->Ok_0).2) == (run_trace::<M>(prog, m, n)->Ok_0).1,
    decreases n,
{
    if n == 0 {
        lemma_hits_total_zero(prog.len());
    } else {
        lemma_trace_hits::<M>(prog, m, (n - 1) as nat);
        let (m1, k, h) = run_trace::<M>(prog, m, (n - 1) as nat)->Ok_0;
        if !halted(prog, m1) && !m1.scanning && step_spec::<M>(prog, m1) is Ok {
            lemma_hits_total_bump(h, m1.pc);
        }
    }
}

proof fn lemma_totals_agree(h: Seq<nat>, c: Seq<i32>)
    requires
        h.len() == c.len(),
        forall|i: int| 0 <= i < h.len() ==> #[trigger] h[i] == c[i] as int,
    ensures
        hits_total(h) == counts_total(c),
    decreases h.len(),
{
    if h.len() > 0 {
        assert forall|i: int| 0 <= i < h.drop_last().len() implies #[trigger] h.drop_last()[i] == c.drop_last()[i] as int by {
            assert(h[i] == c[i] as int);
        }
        lemma_totals_agree(h.drop_last(), c.drop_last());
        assert(h[h.len() - 1] == c[c.len() - 1] as int);
    }
}

proof fn lemma_halted_trace_stays<M: Memory>(prog: Seq<FlatInstruction>, m: Machine, a: nat, b: nat)
    requires
        a <= b,
        run_trace::<M>(prog, m, a) matches Ok((e, _, _)) && halted(prog, e),
    ensures
        run_trace::<M>(prog, m, b) == run_trace::<M>(prog, m, a),
    decreases b,
{
    if b > a {
        lemma_halted_trace_stays::<M>(prog, m, a, (b - 1) as nat);
    }
}

/// A program runs to the same halt whatever bound reaches it: two runs from the same machine
/// that halt end in the same machine with the same count and the same hits. So a profile and a
/// plain run of the same interpreter agree on the count.
pub proof fn lemma_halted_traces_agree<M: Memory>(prog: Seq<FlatInstruction>, m: Machine, a: nat, b: nat)
    requires
        run_trace::<M>(prog, m, a) matches Ok((e, _, _)) && halted(prog, e),
        run_trace::<M>(prog, m, b) matches Ok((e, _, _)) && halted(prog, e),
    ensures
        run_trace::<M>(prog, m, a) == run_trace::<M>(prog, m, b),
{
    if a <= b {
        lemma_halted_trace_stays::<M>(prog, m, a, b);
    } else {
        lemma_halted_trace_stays::<M>(prog, m, b, a);
    }
}

pub open spec fn target_within(f: FlatInstruction, bound: int) -> bool {
    match f {
        FlatInstruction::WhileBegin(t) | FlatInstruction::WhileEnd(t) => t <= bound,
        _ => true,
    }
}

proof fn lemma_step_never_limited<M: Memory>(prog: Seq<FlatInstruction>, m: Machine)
    requires
        0 <= m.pc < prog.len(),
    ensures
        step_spec::<M>(prog, m) != Err::<Machine, Error>(Error::StepLimit),
{
    match prog[m.pc] {
        FlatInstruction::Instruction(op) => {
            match op {
                Op::Mul(to, x, offset) => {
                    if let Ok((c, p)) = address::<M>(m, offset as int) {
                        let v = c[p];
                        let _ = update_cell::<M>(with_cells(m, c), to + offset, |w: u8| wrap(w + v * x));
                    }
                },
                _ => {},
            }
        },
        _ => {},
    }
}

proof fn lemma_crop_wrap(w: int, y: int)
    ensures
        wrap(w + vstd::wrapping::i32_specs::signed_crop(y)) == wrap(w + y),
{
    let m = 4294967296int;
    vstd::arithmetic::div_mod::lemma_mod_mod(y, 256, 16777216);
    assert(256 * 16777216 == m);
    let c = vstd::wrapping::i32_specs::signed_crop(y);
    assert(c % 256 == y % 256) by {
        if (y % m) > i32::MAX {
            assert(c == (y % m) - m);
            vstd::arithmetic::div_mod::lemma_mod_multiples_vanish(-16777216, y % m, 256);
        }
    }
    vstd::arithmetic::div_mod::lemma_add_mod_noop(w, c as int, 256);
    vstd::arithmetic::div_mod::lemma_add_mod_noop(w, y, 256);
}

proof fn lemma_flatten_targets(items: Seq<ItemModel>, at: int)
    requires
        0 <= at,
        at + flatten(items, at).len() < usize::MAX,
    ensures
        forall|i: int| 0 <= i < flatten(items, at).len()
            ==> target_within(#[trigger] flatten(items, at)[i], at + flatten(items, at).len()),
    decreases items,
{
    if items.len() > 0 {
        let f1 = flatten(items.drop_last(), at);
        let q = at + f1.len();
        let tail = flatten_item(items.last(), q);
        assert(flatten(items, at) == f1 + tail);
        lemma_flatten_targets(items.drop_last(), at);
        match items.last() {
            ItemModel::Loop(body) => {
                lemma_flatten_targets(body, q + 1);
                let inner = flatten(body, q + 1);
                assert(tail == seq![FlatInstruction::WhileBegin((q + inner.len() + 2) as usize)] + inner
                    + seq![FlatInstruction::WhileEnd(q as usize)]);
                assert forall|i: int| 0 <= i < tail.len() implies target_within(#[trigger] tail[i], q + tail.len()) by {
                    if 1 <= i < 1 + inner.len() {
                        assert(tail[i] == inner[i - 1]);
                    }
                }
            },
            ItemModel::If(body) => {
                lemma_flatten_targets(body, q + 1);
                let inner = flatten(body, q + 1);
                assert(tail == seq![FlatInstruction::WhileBegin((q + inner.len() + 1) as usize)] + inner);
                assert forall|i: int| 0 <= i < tail.len() implies target_within(#[trigger] tail[i], q + tail.len()) by {
                    if 1 <= i {
                        assert(tail[i] == inner[i - 1]);
                    }
                }
            },
            _ => {},
        }
        assert forall|i: int| 0 <= i < flatten(items, at).len()
            implies target_within(#[trigger] flatten(items, at)[i], at + flatten(items, at).len()) by {
            if i < f1.len() {
                assert(flatten(items, at)[i] == f1[i]);
            } else {
                assert(flatten(items, at)[i] == tail[i - f1.len()]);
            }
        }
    }
}

/// Steps through a running interpreter.
pub struct InterPreterIter<'a, M: Memory>(pub &'a mut InterPreter<M>);

impl<'a, M: Memory> InterPreterIter<'a, M> {
    /// The next step, or `None` once the program has halted.
    pub fn next(&mut self) -> (r: Option<Result<Step, Error>>)
        requires
            old(self).0.wf(),
        ensures
            final(self).0.wf(),
            final(self).0.program() == old(self).0.program(),
            halted(old(self).0.program(), old(self).0.machine()) <==> r is None,
            r matches Some(s) ==> match step_spec::<M>(old(self).0.program(), old(self).0.machine()) {
                Ok(m) => final(self).0.machine() == m && s == Ok::<Step, Error>(
                    if old(self).0.machine().scanning { Step::Continued } else { Step::Fetched(old(self).0.machine().pc as usize) }),
                Err(Error::EndOfInput) => s == Ok::<Step, Error>(Step::NeedInput) && final(self).0.machine() == old(self).0.machine(),
                Err(e) => s == Err::<Step, Error>(e),
            },
    {
        match self.0.step() {
            Ok(Step::Halted) => None,
            other => Some(other),
        }
    }
}

/// Collects the parts of an interpreter one by one.
pub struct InterPreterBuilder<'a, M: Memory> {
    pub root_node: Option<&'a Block>,
    pub memory: Option<M>,
    pub input: Option<Vec<u8>>,
    pub output: Option<Vec<u8>>,
}

impl<'a, M: Memory> InterPreterBuilder<'a, M> {
    pub fn root_node(self, root_node: &'a Block) -> (r: Self)
        ensures
            r.root_node == Some(root_node),
            r.memory == self.memory,
            r.input == self.input,
            r.output == self.output,
    {
        Self { root_node: Some(root_node), ..self }
    }

    pub fn memory(self, memory: M) -> (r: Self)
        ensures
            r.root_node == self.root_node,
            r.memory == Some(memory),
            r.input == self.input,
            r.output == self.output,
    {
        Self { memory: Some(memory), ..self }
    }

    /// The bytes the program reads, in order.
    pub fn input(self, input: Vec<u8>) -> (r: Self)
        ensures
            r.root_node == self.root_node,
            r.memory == self.memory,
            r.input == Some(input),
            r.output == self.output,
    {
        Self { input: Some(input), ..self }
    }

    /// The buffer the program's output is appended to.
    pub fn output(self, output: Vec<u8>) -> (r: Self)
        ensures
            r.root_node == self.root_node,
            r.memory == self.memory,
            r.input == self.input,
            r.output == Some(output),
    {
        Self { output: Some(output), ..self }
    }

    pub fn build(self) -> (r: InterPreter<M>)
        requires
            self.root_node is Some,
            self.memory is Some,
            self.input is Some,
            self.output is Some,
            flattenable(*self.root_node->0),
        ensures
            r.wf(),
            r.program() == flatten(self.root_node->0@, 0),
            r.machine() == (Machine {
                pc: 0,
                ptr: 0,
                cells: self.memory->0.cells(),
                input: self.input->0@,
                output: self.output->0@,
                scanning: false,
            }),
    {
        let Self { root_node, memory, input, output } = self;
        let root_node = root_node.unwrap();
        let input = input.unwrap();
        let output = output.unwrap();
        let memory = memory.unwrap();
        InterPreter::new(root_node, input, output, memory)
    }
}

} // verus!
