//! Instructions with memory offsets relative to the data pointer, the way the
//! offset-based optimizers and the step interpreter see a program.

use vstd::prelude::*;
use crate::parse::Token;
use crate::text::{decimal, repeat_char, push_char, push_decimal, push_repeat};

verus! {

/// The operand of an instruction: a constant, or the cell at an offset from the data pointer.
#[derive(Debug, Clone, Copy, Eq, Hash, PartialEq, Structural)]
pub enum Value {
    Const(u8),
    Memory(isize),
}

#[derive(Debug, Clone, Copy, Eq, Hash, PartialEq, Structural)]
pub enum Instruction {
    PtrIncrement(usize),
    PtrDecrement(usize),
    /// mem[offset] += value
    Add(isize, Value),
    /// mem[offset] -= value
    Sub(isize, Value),
    /// mem[to] += mem[from] * value
    MulAdd(isize, isize, u8),
    /// mem[to] -= mem[from] * value
    MulSub(isize, isize, u8),
    /// writes mem[offset], the given number of times
    Output(isize, usize),
    /// reads into mem[offset], the given number of times
    Input(isize, usize),
    /// mem[offset] = value
    SetValue(isize, Value),
}

impl From<u8> for Value {
    fn from(value: u8) -> (r: Self)
        ensures
            r == Value::Const(value),
    {
        Value::Const(value)
    }
}

impl vstd::std_specs::convert::FromSpecImpl<u8> for Value {
    open spec fn obeys_from_spec() -> bool {
        true
    }

    open spec fn from_spec(v: u8) -> Value {
        Value::Const(v)
    }
}

impl Value {
    pub fn get_const(self) -> (r: Option<u8>)
        ensures
            r == match self {
                Value::Const(v) => Some(v),
                Value::Memory(_) => None::<u8>,
            },
    {
        match self {
            Value::Const(value) => Some(value),
            Value::Memory(_) => None,
        }
    }

    /// The constant, or what `f` gives for the offset.
    pub fn get_or(self, f: impl FnOnce(isize) -> u8) -> (r: u8)
        requires
            self matches Value::Memory(o) ==> f.requires((o,)),
        ensures
            match self {
                Value::Const(v) => r == v,
                Value::Memory(o) => f.ensures((o,), r),
            },
    {
        match self {
            Value::Const(value) => value,
            Value::Memory(offset) => f(offset),
        }
    }

    /// Applies `f` to a constant; an offset stays as it is.
    pub fn map_const(self, f: impl FnOnce(u8) -> u8) -> (r: Self)
        requires
            self matches Value::Const(v) ==> f.requires((v,)),
        ensures
            match self {
                Value::Const(v) => r matches Value::Const(w) && f.ensures((v,), w),
                Value::Memory(_) => r == self,
            },
    {
        if let Self::Const(value) = self {
            Self::Const(f(value))
        } else {
            self
        }
    }

    /// Applies `f` to an offset; a constant stays as it is.
    pub fn map_offset(self, f: impl FnOnce(isize) -> isize) -> (r: Self)
        requires
            self matches Value::Memory(o) ==> f.requires((o,)),
        ensures
            match self {
                Value::Memory(o) => r matches Value::Memory(p) && f.ensures((o,), p),
                Value::Const(_) => r == self,
            },
    {
        if let Self::Memory(offset) = self {
            Self::Memory(f(offset))
        } else {
            self
        }
    }
}

/// The instruction that a single non-bracket token stands for.
pub open spec fn token_instruction(t: Token) -> Option<Instruction> {
    match t {
        Token::Greater => Some(Instruction::PtrIncrement(1)),
        Token::Less => Some(Instruction::PtrDecrement(1)),
        Token::Plus => Some(Instruction::Add(0, Value::Const(1))),
        Token::Minus => Some(Instruction::Sub(0, Value::Const(1))),
        Token::Period => Some(Instruction::Output(0, 1)),
        Token::Comma => Some(Instruction::Input(0, 1)),
        Token::LeftBracket | Token::RightBracket => None,
    }
}

/// Instructions that change nothing.
pub open spec fn no_action(i: Instruction) -> bool {
    match i {
        Instruction::PtrIncrement(0) | Instruction::PtrDecrement(0) => true,
        Instruction::Add(_, Value::Const(0)) | Instruction::Sub(_, Value::Const(0)) => true,
        _ => false,
    }
}

/// The short text of an instruction that a run of one command compresses to,
/// such as `3+` for three increments; `None` for other instructions.
pub open spec fn compressed_text(i: Instruction) -> Option<Seq<char>> {
    match i {
        Instruction::PtrIncrement(n) => Some(decimal(n as nat) + seq!['>']),
        Instruction::PtrDecrement(n) => Some(decimal(n as nat) + seq!['<']),
        Instruction::Add(0, Value::Const(n)) => Some(decimal(n as nat) + seq!['+']),
        Instruction::Sub(0, Value::Const(n)) => Some(decimal(n as nat) + seq!['-']),
        Instruction::Output(0, n) => Some(decimal(n as nat) + seq!['.']),
        Instruction::Input(0, n) => Some(decimal(n as nat) + seq![',']),
        _ => None,
    }
}

/// The Brainfuck text of an instruction that is a run of one command, such as `+++`;
/// `None` for other instructions.
pub open spec fn plain_text(i: Instruction) -> Option<Seq<char>> {
    match i {
        Instruction::PtrIncrement(n) => Some(repeat_char('>', n as nat)),
        Instruction::PtrDecrement(n) => Some(repeat_char('<', n as nat)),
        Instruction::Add(0, Value::Const(n)) => Some(repeat_char('+', n as nat)),
        Instruction::Sub(0, Value::Const(n)) => Some(repeat_char('-', n as nat)),
        Instruction::Output(0, n) => Some(repeat_char('.', n as nat)),
        Instruction::Input(0, n) => Some(repeat_char(',', n as nat)),
        _ => None,
    }
}

/// What `merge` needs of its operands: sums of counts stay within `usize`, and a move right
/// and a move left that are netted against each other both fit in `isize`.
pub open spec fn mergeable(a: Instruction, b: Instruction) -> bool {
    match (a, b) {
        (Instruction::PtrIncrement(x), Instruction::PtrIncrement(y)) => x + y <= usize::MAX,
        (Instruction::PtrDecrement(x), Instruction::PtrDecrement(y)) => x + y <= usize::MAX,
        (Instruction::PtrIncrement(x), Instruction::PtrDecrement(y)) => x <= isize::MAX && y <= isize::MAX,
        (Instruction::PtrDecrement(x), Instruction::PtrIncrement(y)) => x <= isize::MAX && y <= isize::MAX,
        (Instruction::Output(xo, x), Instruction::Output(yo, y)) => xo == yo ==> x + y <= usize::MAX,
        _ => true,
    }
}

/// `x - y` on bytes, as an addition or a subtraction of its magnitude at `offset`.
pub open spec fn net_add(offset: isize, x: u8, y: u8) -> Instruction {
    let z = x as int - y as int;
    if z < 0 {
        Instruction::Sub(offset, Value::Const((-z) as u8))
    } else {
        Instruction::Add(offset, Value::Const(z as u8))
    }
}

/// `x - y` on pointer moves, as a move right or left by its magnitude.
pub open spec fn net_move(x: usize, y: usize) -> Instruction {
    let z = x as int - y as int;
    if z < 0 {
        Instruction::PtrDecrement((-z) as usize)
    } else {
        Instruction::PtrIncrement(z as usize)
    }
}

/// The rules by which two consecutive instructions fuse into one.
pub open spec fn merge_rule(a: Instruction, b: Instruction) -> Option<Instruction> {
    match (a, b) {
        (Instruction::Add(xo, Value::Const(x)), Instruction::Add(yo, Value::Const(y))) if xo == yo =>
            Some(Instruction::Add(xo, Value::Const(vstd::wrapping::u8_specs::wrapping_add(x, y)))),
        (Instruction::Sub(yo, Value::Const(y)), Instruction::Add(xo, Value::Const(x))) if xo == yo =>
            Some(net_add(xo, x, y)),
        (Instruction::Add(xo, Value::Const(x)), Instruction::Sub(yo, Value::Const(y))) if xo == yo =>
            Some(net_add(xo, x, y)),
        (Instruction::Sub(xo, Value::Const(x)), Instruction::Sub(yo, Value::Const(y))) if xo == yo =>
            Some(Instruction::Sub(xo, Value::Const(vstd::wrapping::u8_specs::wrapping_add(x, y)))),
        (Instruction::PtrIncrement(x), Instruction::PtrIncrement(y)) =>
            Some(Instruction::PtrIncrement((x + y) as usize)),
        (Instruction::PtrDecrement(y), Instruction::PtrIncrement(x)) => Some(net_move(x, y)),
        (Instruction::PtrIncrement(x), Instruction::PtrDecrement(y)) => Some(net_move(x, y)),
        (Instruction::PtrDecrement(x), Instruction::PtrDecrement(y)) =>
            Some(Instruction::PtrDecrement((x + y) as usize)),
        (Instruction::SetValue(ox, _), Instruction::SetValue(oy, _)) if ox == oy => Some(b),
        (Instruction::SetValue(ox, value), Instruction::Add(oy, Value::Const(add))) if ox == oy =>
            Some(Instruction::SetValue(ox, match value {
                Value::Const(v) => Value::Const(vstd::wrapping::u8_specs::wrapping_add(v, add)),
                Value::Memory(_) => value,
            })),
        (Instruction::SetValue(ox, Value::Const(v)), Instruction::Sub(oy, Value::Const(sub))) if ox == oy =>
            Some(Instruction::SetValue(ox, Value::Const(vstd::wrapping::u8_specs::wrapping_sub(v, sub)))),
        (Instruction::SetValue(ox, Value::Const(0)), Instruction::Add(to, Value::Memory(from))) if ox == to =>
            Some(Instruction::SetValue(ox, Value::Memory(from))),
        (Instruction::Add(xo, _), Instruction::SetValue(yo, Value::Const(0))) if xo == yo => Some(b),
        (Instruction::Sub(xo, _), Instruction::SetValue(yo, Value::Const(0))) if xo == yo => Some(b),
        (Instruction::Output(xo, x), Instruction::Output(yo, y)) if xo == yo =>
            Some(Instruction::Output(xo, (x + y) as usize)),
        _ => if no_action(a) {
            Some(b)
        } else if no_action(b) {
            Some(a)
        } else {
            None
        },
    }
}

impl Instruction {
    #[inline]
    pub fn from_token(token: &Token) -> (r: Option<Self>)
        ensures
            r == token_instruction(*token),
    {
        match token {
            Token::Greater => Some(Self::PtrIncrement(1)),
            Token::Less => Some(Self::PtrDecrement(1)),
            Token::Plus => Some(Self::Add(0, Value::Const(1))),
            Token::Minus => Some(Self::Sub(0, Value::Const(1))),
            Token::Period => Some(Self::Output(0, 1)),
            Token::Comma => Some(Self::Input(0, 1)),
            Token::LeftBracket | Token::RightBracket => None,
        }
    }

    pub fn to_compressed_string(self) -> (r: Option<String>)
        ensures
            match compressed_text(self) {
                Some(t) => r matches Some(s) && s@ == t,
                None => r is None,
            },
    {
        let (n, c): (usize, char) = match self {
            Instruction::PtrIncrement(n) => (n, '>'),
            Instruction::PtrDecrement(n) => (n, '<'),
            Instruction::Add(0, Value::Const(n)) => (n as usize, '+'),
            Instruction::Sub(0, Value::Const(n)) => (n as usize, '-'),
            Instruction::Output(0, n) => (n, '.'),
            Instruction::Input(0, n) => (n, ','),
            _ => return None,
        };
        let mut s = String::new();
        push_decimal(&mut s, n as u64);
        push_char(&mut s, c);
        Some(s)
    }

    pub fn to_string(self) -> (r: Option<String>)
        ensures
            match plain_text(self) {
                Some(t) => r matches Some(s) && s@ == t,
                None => r is None,
            },
    {
        let (n, c): (usize, char) = match self {
            Instruction::PtrIncrement(n) => (n, '>'),
            Instruction::PtrDecrement(n) => (n, '<'),
            Instruction::Add(0, Value::Const(n)) => (n as usize, '+'),
            Instruction::Sub(0, Value::Const(n)) => (n as usize, '-'),
            Instruction::Output(0, n) => (n, '.'),
            Instruction::Input(0, n) => (n, ','),
            _ => return None,
        };
        let mut s = String::new();
        push_repeat(&mut s, c, n);
        assert(s@ =~= repeat_char(c, n as nat));
        Some(s)
    }

    /// Fuses this instruction with the one that follows it, when the two have the effect of one.
    #[inline]
    pub fn merge(self, instruction: Instruction) -> (r: Option<Instruction>)
        requires
            mergeable(self, instruction),
        ensures
            r == merge_rule(self, instruction),
    {
        match (self, instruction) {
            (Instruction::Add(x_offset, Value::Const(x)), Instruction::Add(y_offset, Value::Const(y)))
                if x_offset == y_offset => Some(Instruction::Add(x_offset, Value::Const(x.wrapping_add(y)))),
            (Instruction::Sub(y_offset, Value::Const(y)), Instruction::Add(x_offset, Value::Const(x)))
                if x_offset == y_offset => Some(Self::net(x_offset, x, y)),
            (Instruction::Add(x_offset, Value::Const(x)), Instruction::Sub(y_offset, Value::Const(y)))
                if x_offset == y_offset => Some(Self::net(x_offset, x, y)),
            (Instruction::Sub(x_offset, Value::Const(x)), Instruction::Sub(y_offset, Value::Const(y)))
                if x_offset == y_offset => Some(Instruction::Sub(x_offset, Value::Const(x.wrapping_add(y)))),
            (Instruction::PtrIncrement(x), Instruction::PtrIncrement(y)) => Some(Instruction::PtrIncrement(x + y)),
            (Instruction::PtrDecrement(y), Instruction::PtrIncrement(x)) => Some(Self::net_ptr(x, y)),
            (Instruction::PtrIncrement(x), Instruction::PtrDecrement(y)) => Some(Self::net_ptr(x, y)),
            (Instruction::PtrDecrement(x), Instruction::PtrDecrement(y)) => Some(Instruction::PtrDecrement(x + y)),
            (Instruction::SetValue(offset_x, _), Instruction::SetValue(offset_y, _)) if offset_x == offset_y =>
                Some(instruction),
            (Instruction::SetValue(offset_x, value), Instruction::Add(offset_y, Value::Const(add_value)))
                if offset_x == offset_y => {
                let v = match value {
                    Value::Const(v) => Value::Const(v.wrapping_add(add_value)),
                    Value::Memory(_) => value,
                };
                Some(Instruction::SetValue(offset_x, v))
            },
            (Instruction::SetValue(offset_x, Value::Const(v)), Instruction::Sub(offset_y, Value::Const(sub_value)))
                if offset_x == offset_y => Some(Instruction::SetValue(offset_x, Value::Const(v.wrapping_sub(sub_value)))),
            (Instruction::SetValue(offset_x, Value::Const(0)), Instruction::Add(to_offset, Value::Memory(from_offset)))
                if offset_x == to_offset => Some(Instruction::SetValue(offset_x, Value::Memory(from_offset))),
            (Instruction::Add(x_offset, _), Instruction::SetValue(y_offset, Value::Const(0))) if x_offset == y_offset =>
                Some(instruction),
            (Instruction::Sub(x_offset, _), Instruction::SetValue(y_offset, Value::Const(0))) if x_offset == y_offset =>
                Some(instruction),
            (Instruction::Output(x_offset, x), Instruction::Output(y_offset, y)) if x_offset == y_offset =>
                Some(Instruction::Output(x_offset, x + y)),
            _ => if self.is_no_action() {
                Some(instruction)
            } else if instruction.is_no_action() {
                Some(self)
            } else {
                None
            },
        }
    }

    fn net(offset: isize, x: u8, y: u8) -> (r: Instruction)
        ensures
            r == net_add(offset, x, y),
    {
        let x = x as i32;
        let y = y as i32;
        let z = x - y;
        if z < 0 {
            Instruction::Sub(offset, Value::Const((-z) as u8))
        } else {
            Instruction::Add(offset, Value::Const(z as u8))
        }
    }

    fn net_ptr(x: usize, y: usize) -> (r: Instruction)
        requires
            x <= isize::MAX,
            y <= isize::MAX,
        ensures
            r == net_move(x, y),
    {
        let x = x as isize;
        let y = y as isize;
        let z = x - y;
        if z < 0 {
            Instruction::PtrDecrement((-z) as usize)
        } else {
            Instruction::PtrIncrement(z as usize)
        }
    }

    #[inline]
    pub fn is_no_action(&self) -> (r: bool)
        ensures
            r == no_action(*self),
    {
        match self {
            Instruction::PtrIncrement(0) | Instruction::PtrDecrement(0) => true,
            Instruction::Add(_, Value::Const(0)) | Instruction::Sub(_, Value::Const(0)) => true,
            _ => false,
        }
    }
}


/// A machine state over an unbounded tape: the data pointer, every cell, what
/// was written so far and what is left to read.
#[verifier::ext_equal]
pub struct Tape {
    pub ptr: int,
    pub mem: spec_fn(int) -> u8,
    pub out: Seq<u8>,
    pub input: Seq<u8>,
}

/// A number reduced to a byte, as cell arithmetic wraps around.
pub open spec fn wrap(v: int) -> u8 {
    (v % 256) as u8
}

pub open spec fn cell(t: Tape, offset: int) -> u8 {
    (t.mem)(t.ptr + offset)
}

pub open spec fn operand(v: Value, t: Tape) -> u8 {
    match v {
        Value::Const(c) => c,
        Value::Memory(o) => cell(t, o as int),
    }
}

pub open spec fn with_cell(t: Tape, at: int, v: u8) -> Tape {
    Tape { ptr: t.ptr, mem: |i: int| if i == at { v } else { (t.mem)(i) }, out: t.out, input: t.input }
}

/// The effect of one instruction on a tape. Reading takes bytes from the front of
/// the input, and the cell keeps the last byte read.
pub open spec fn run_instruction(i: Instruction, t: Tape) -> Tape {
    match i {
        Instruction::PtrIncrement(n) => Tape { ptr: t.ptr + n, mem: t.mem, out: t.out, input: t.input },
        Instruction::PtrDecrement(n) => Tape { ptr: t.ptr - n, mem: t.mem, out: t.out, input: t.input },
        Instruction::Add(o, v) => with_cell(t, t.ptr + o, wrap(cell(t, o as int) + operand(v, t))),
        Instruction::Sub(o, v) => with_cell(t, t.ptr + o, wrap(cell(t, o as int) - operand(v, t))),
        Instruction::MulAdd(to, from, x) =>
            with_cell(t, t.ptr + to, wrap(cell(t, to as int) + cell(t, from as int) * x)),
        Instruction::MulSub(to, from, x) =>
            with_cell(t, t.ptr + to, wrap(cell(t, to as int) - cell(t, from as int) * x)),
        Instruction::Output(o, n) =>
            Tape { ptr: t.ptr, mem: t.mem, out: t.out + Seq::new(n as nat, |_i: int| cell(t, o as int)), input: t.input },
        Instruction::Input(o, n) => if n == 0 {
            t
        } else {
            with_cell(Tape { ptr: t.ptr, mem: t.mem, out: t.out, input: t.input.skip(n as int) }, t.ptr + o, t.input[n - 1])
        },
        Instruction::SetValue(o, v) => with_cell(t, t.ptr + o, operand(v, t)),
    }
}

/// The pairs on which the fusion rules change the effect of the two instructions:
/// a store of a cell's value followed by a constant increment of the stored cell
/// (the increment is dropped), a store that reads the very cell that the store before
/// it wrote, and a clear followed by adding the cleared cell to itself.
pub open spec fn merge_changes_effect(a: Instruction, b: Instruction) -> bool {
    match (a, b) {
        (Instruction::SetValue(ox, Value::Memory(_)), Instruction::Add(oy, Value::Const(x))) => ox == oy && x != 0,
        (Instruction::SetValue(ox, v), Instruction::SetValue(oy, Value::Memory(m))) =>
            ox == oy && m == oy && v != Value::Memory(m),
        (Instruction::SetValue(ox, Value::Const(0)), Instruction::Add(oy, Value::Memory(m))) => ox == oy && m == oy,
        _ => false,
    }
}

pub proof fn lemma_wrap_add(a: int, b: int)
    ensures
        wrap(wrap(a) + b) == wrap(a + b),
{
    vstd::arithmetic::div_mod::lemma_add_mod_noop(a, b, 256);
    vstd::arithmetic::div_mod::lemma_mod_twice(b, 256);
}

pub proof fn lemma_wrap_byte(a: u8)
    ensures
        wrap(a as int) == a,
{
}

pub proof fn lemma_no_action(i: Instruction, t: Tape)
    requires
        no_action(i),
    ensures
        run_instruction(i, t) == t,
{
    match i {
        Instruction::Add(o, _) => {
            lemma_wrap_byte(cell(t, o as int));
            assert(run_instruction(i, t) =~= t);
        },
        Instruction::Sub(o, _) => {
            lemma_wrap_byte(cell(t, o as int));
            assert(run_instruction(i, t) =~= t);
        },
        _ => {
            assert(run_instruction(i, t) =~= t);
        },
    }
}

/// Fusing two instructions keeps their joint effect: running the fused instruction
/// does what running the first and then the second does, on every tape, except on the
/// pairs named by `merge_changes_effect`.
proof fn lemma_merge_add_add(o: isize, x: u8, y: u8, t: Tape)
    ensures
        run_instruction(Instruction::Add(o, Value::Const(vstd::wrapping::u8_specs::wrapping_add(x, y))), t)
            == run_instruction(Instruction::Add(o, Value::Const(y)), run_instruction(Instruction::Add(o, Value::Const(x)), t)),
{
    lemma_wrap_add(cell(t, o as int) + x, y as int);
    let s = vstd::wrapping::u8_specs::wrapping_add(x, y);
    assert(wrap(cell(t, o as int) + s) == wrap(cell(t, o as int) + x + y)) by {
        vstd::arithmetic::div_mod::lemma_mod_add_multiples_vanish(cell(t, o as int) + s, 256);
    }
    assert(run_instruction(Instruction::Add(o, Value::Const(s)), t)
        =~= run_instruction(Instruction::Add(o, Value::Const(y)), run_instruction(Instruction::Add(o, Value::Const(x)), t)));
}

proof fn lemma_merge_sub_sub(o: isize, x: u8, y: u8, t: Tape)
    ensures
        run_instruction(Instruction::Sub(o, Value::Const(vstd::wrapping::u8_specs::wrapping_add(x, y))), t)
            == run_instruction(Instruction::Sub(o, Value::Const(y)), run_instruction(Instruction::Sub(o, Value::Const(x)), t)),
{
    lemma_wrap_add(cell(t, o as int) - x, - (y as int));
    let s = vstd::wrapping::u8_specs::wrapping_add(x, y);
    assert(wrap(cell(t, o as int) - s) == wrap(cell(t, o as int) - x - y)) by {
        vstd::arithmetic::div_mod::lemma_mod_add_multiples_vanish(cell(t, o as int) - x - y, 256);
    }
    assert(run_instruction(Instruction::Sub(o, Value::Const(s)), t)
        =~= run_instruction(Instruction::Sub(o, Value::Const(y)), run_instruction(Instruction::Sub(o, Value::Const(x)), t)));
}

proof fn lemma_net_add(o: isize, x: u8, y: u8, t: Tape)
    ensures
        run_instruction(net_add(o, x, y), t) == with_cell(t, t.ptr + o, wrap(cell(t, o as int) + x - y)),
{
    assert(run_instruction(net_add(o, x, y), t) =~= with_cell(t, t.ptr + o, wrap(cell(t, o as int) + x - y)));
}

proof fn lemma_merge_sub_add(o: isize, x: u8, y: u8, t: Tape)
    ensures
        run_instruction(net_add(o, x, y), t)
            == run_instruction(Instruction::Add(o, Value::Const(x)), run_instruction(Instruction::Sub(o, Value::Const(y)), t)),
        run_instruction(net_add(o, x, y), t)
            == run_instruction(Instruction::Sub(o, Value::Const(y)), run_instruction(Instruction::Add(o, Value::Const(x)), t)),
{
    lemma_net_add(o, x, y, t);
    lemma_wrap_add(cell(t, o as int) - y, x as int);
    lemma_wrap_add(cell(t, o as int) + x, - (y as int));
    assert(run_instruction(net_add(o, x, y), t)
        =~= run_instruction(Instruction::Add(o, Value::Const(x)), run_instruction(Instruction::Sub(o, Value::Const(y)), t)));
    assert(run_instruction(net_add(o, x, y), t)
        =~= run_instruction(Instruction::Sub(o, Value::Const(y)), run_instruction(Instruction::Add(o, Value::Const(x)), t)));
}

proof fn lemma_merge_moves(a: Instruction, b: Instruction, t: Tape)
    requires
        mergeable(a, b),
        match (a, b) {
            (Instruction::PtrIncrement(_), Instruction::PtrIncrement(_)) => true,
            (Instruction::PtrDecrement(_), Instruction::PtrIncrement(_)) => true,
            (Instruction::PtrIncrement(_), Instruction::PtrDecrement(_)) => true,
            (Instruction::PtrDecrement(_), Instruction::PtrDecrement(_)) => true,
            _ => false,
        },
    ensures
        run_instruction(merge_rule(a, b)->0, t) == run_instruction(b, run_instruction(a, t)),
{
    assert(run_instruction(merge_rule(a, b)->0, t) =~= run_instruction(b, run_instruction(a, t)));
}

proof fn lemma_merge_stores(a: Instruction, b: Instruction, t: Tape)
    requires
        !merge_changes_effect(a, b),
        match (a, b) {
            (Instruction::SetValue(ox, _), Instruction::SetValue(oy, _)) => ox == oy,
            (Instruction::SetValue(ox, _), Instruction::Add(oy, Value::Const(_))) => ox == oy,
            _ => false,
        },
    ensures
        run_instruction(merge_rule(a, b)->0, t) == run_instruction(b, run_instruction(a, t)),
{
    let lhs = run_instruction(merge_rule(a, b)->0, t);
    let rhs = run_instruction(b, run_instruction(a, t));
    match (a, b) {
        (Instruction::SetValue(ox, _), Instruction::SetValue(oy, _)) => {
            assert(lhs =~= rhs);
        },
        (Instruction::SetValue(ox, value), Instruction::Add(oy, Value::Const(add))) => {
            lemma_wrap_byte(operand(value, t));
            assert(lhs =~= rhs);
        },
        _ => {},
    }
}

proof fn lemma_merge_clears(a: Instruction, b: Instruction, t: Tape)
    requires
        !merge_changes_effect(a, b),
        match (a, b) {
            (Instruction::SetValue(ox, Value::Const(_)), Instruction::Sub(oy, Value::Const(_))) => ox == oy,
            (Instruction::SetValue(ox, Value::Const(0)), Instruction::Add(to, Value::Memory(_))) => ox == to,
            (Instruction::Add(xo, _), Instruction::SetValue(yo, Value::Const(0))) => xo == yo,
            (Instruction::Sub(xo, _), Instruction::SetValue(yo, Value::Const(0))) => xo == yo,
            _ => false,
        },
        !(a matches Instruction::SetValue(ox, _) && b matches Instruction::Add(oy, Value::Const(_)) && ox == oy),
    ensures
        run_instruction(merge_rule(a, b)->0, t) == run_instruction(b, run_instruction(a, t)),
{
    let lhs = run_instruction(merge_rule(a, b)->0, t);
    let rhs = run_instruction(b, run_instruction(a, t));
    match (a, b) {
        (Instruction::SetValue(ox, Value::Const(0)), Instruction::Add(to, Value::Memory(from))) => {
            lemma_wrap_byte(cell(t, from as int));
            assert(lhs =~= rhs);
        },
        _ => {
            assert(lhs =~= rhs);
        },
    }
}

proof fn lemma_merge_outputs(a: Instruction, b: Instruction, t: Tape)
    requires
        mergeable(a, b),
        match (a, b) {
            (Instruction::Output(xo, _), Instruction::Output(yo, _)) => xo == yo,
            _ => false,
        },
    ensures
        run_instruction(merge_rule(a, b)->0, t) == run_instruction(b, run_instruction(a, t)),
{
    let lhs = run_instruction(merge_rule(a, b)->0, t);
    let rhs = run_instruction(b, run_instruction(a, t));
    assert(lhs.out =~= rhs.out);
    assert(lhs =~= rhs);
}

/// An instruction that changes nothing is an identity for fusing, on either side.
pub proof fn lemma_merge_no_action(x: Instruction, n: Instruction)
    requires
        no_action(n),
        !no_action(x),
        mergeable(x, n),
        mergeable(n, x),
    ensures
        merge_rule(x, n) == Some(x),
        merge_rule(n, x) == Some(x),
{
    match (x, n) {
        (Instruction::Add(xo, Value::Const(a)), Instruction::Add(_, Value::Const(0))) => {
            assert(vstd::wrapping::u8_specs::wrapping_add(a, 0) == a);
            assert(vstd::wrapping::u8_specs::wrapping_add(0, a) == a);
        },
        (Instruction::Sub(xo, Value::Const(a)), Instruction::Sub(_, Value::Const(0))) => {
            assert(vstd::wrapping::u8_specs::wrapping_add(a, 0) == a);
            assert(vstd::wrapping::u8_specs::wrapping_add(0, a) == a);
        },
        (Instruction::SetValue(xo, Value::Const(v)), _) => {
            assert(vstd::wrapping::u8_specs::wrapping_add(v, 0) == v);
            assert(vstd::wrapping::u8_specs::wrapping_sub(v, 0) == v);
        },
        _ => {},
    }
}

/// Fusing two instructions keeps their joint effect: running the fused instruction
/// does what running the first and then the second does, on every tape, except on the
/// pairs named by `merge_changes_effect`.
pub proof fn lemma_merge_keeps_effect(a: Instruction, b: Instruction, t: Tape)
    requires
        mergeable(a, b),
        merge_rule(a, b) is Some,
        !merge_changes_effect(a, b),
    ensures
        run_instruction(merge_rule(a, b)->0, t) == run_instruction(b, run_instruction(a, t)),
{
    match (a, b) {
        (Instruction::Add(xo, Value::Const(x)), Instruction::Add(yo, Value::Const(y))) if xo == yo =>
            lemma_merge_add_add(xo, x, y, t),
        (Instruction::Sub(yo, Value::Const(y)), Instruction::Add(xo, Value::Const(x))) if xo == yo =>
            lemma_merge_sub_add(xo, x, y, t),
        (Instruction::Add(xo, Value::Const(x)), Instruction::Sub(yo, Value::Const(y))) if xo == yo =>
            lemma_merge_sub_add(xo, x, y, t),
        (Instruction::Sub(xo, Value::Const(x)), Instruction::Sub(yo, Value::Const(y))) if xo == yo =>
            lemma_merge_sub_sub(xo, x, y, t),
        (Instruction::PtrIncrement(_), Instruction::PtrIncrement(_)) => lemma_merge_moves(a, b, t),
        (Instruction::PtrDecrement(_), Instruction::PtrIncrement(_)) => lemma_merge_moves(a, b, t),
        (Instruction::PtrIncrement(_), Instruction::PtrDecrement(_)) => lemma_merge_moves(a, b, t),
        (Instruction::PtrDecrement(_), Instruction::PtrDecrement(_)) => lemma_merge_moves(a, b, t),
        (Instruction::SetValue(ox, _), Instruction::SetValue(oy, _)) if ox == oy => lemma_merge_stores(a, b, t),
        (Instruction::SetValue(ox, _), Instruction::Add(oy, Value::Const(_))) if ox == oy =>
            lemma_merge_stores(a, b, t),
        (Instruction::SetValue(ox, Value::Const(_)), Instruction::Sub(oy, Value::Const(_))) if ox == oy =>
            lemma_merge_clears(a, b, t),
        (Instruction::SetValue(ox, Value::Const(0)), Instruction::Add(to, Value::Memory(_))) if ox == to =>
            lemma_merge_clears(a, b, t),
        (Instruction::Add(xo, _), Instruction::SetValue(yo, Value::Const(0))) if xo == yo =>
            lemma_merge_clears(a, b, t),
        (Instruction::Sub(xo, _), Instruction::SetValue(yo, Value::Const(0))) if xo == yo =>
            lemma_merge_clears(a, b, t),
        (Instruction::Output(xo, _), Instruction::Output(yo, _)) if xo == yo => lemma_merge_outputs(a, b, t),
        _ => {
            if no_action(a) {
                lemma_no_action(a, t);
            } else {
                lemma_no_action(b, run_instruction(a, t));
            }
        },
    }
}

} // verus!
