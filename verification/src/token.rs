//! Instructions as the pattern-matching optimizers see a program: each command
//! with a repeat count, plus the fused forms that those optimizers produce.

use vstd::prelude::*;
use crate::parse::Token;
use crate::text::{decimal, repeat_char, push_char, push_decimal, push_repeat};

verus! {

#[derive(Debug, Clone, Copy, Eq, Hash, PartialEq, Structural)]
pub enum Instruction {
    PtrIncrement(usize),
    PtrDecrement(usize),
    Add(u8),
    /// mem[ptr + n] += mem[ptr]
    AddTo(usize),
    /// mem[ptr - n] += mem[ptr]
    AddToRev(usize),
    Sub(u8),
    /// mem[ptr + n] -= mem[ptr]
    SubTo(usize),
    /// mem[ptr - n] -= mem[ptr]
    SubToRev(usize),
    /// mem[ptr + n] += mem[ptr] * x
    MulAdd(usize, u8),
    /// mem[ptr - n] += mem[ptr] * x
    MulAddRev(usize, u8),
    Output(usize),
    Input(usize),
    /// mem[ptr] = 0
    ZeroSet,
    /// mem[ptr + n] += mem[ptr]
    Copy(usize),
    /// mem[ptr - n] += mem[ptr]
    CopyRev(usize),
    /// mem[ptr + n] = x
    SetValue(usize, u8),
    /// mem[ptr - n] -= mem[ptr], then mem[ptr] = 0
    MoveSubRev(usize),
}

/// The instruction that a single non-bracket token stands for.
pub open spec fn token_instruction(t: Token) -> Option<Instruction> {
    match t {
        Token::Greater => Some(Instruction::PtrIncrement(1)),
        Token::Less => Some(Instruction::PtrDecrement(1)),
        Token::Plus => Some(Instruction::Add(1)),
        Token::Minus => Some(Instruction::Sub(1)),
        Token::Period => Some(Instruction::Output(1)),
        Token::Comma => Some(Instruction::Input(1)),
        Token::LeftBracket | Token::RightBracket => None,
    }
}

/// The short text of a repeated command, such as `3+`; `None` for fused instructions.
pub open spec fn compressed_text(i: Instruction) -> Option<Seq<char>> {
    match i {
        Instruction::PtrIncrement(n) => Some(decimal(n as nat) + seq!['>']),
        Instruction::PtrDecrement(n) => Some(decimal(n as nat) + seq!['<']),
        Instruction::Add(n) => Some(decimal(n as nat) + seq!['+']),
        Instruction::Sub(n) => Some(decimal(n as nat) + seq!['-']),
        Instruction::Output(n) => Some(decimal(n as nat) + seq!['.']),
        Instruction::Input(n) => Some(decimal(n as nat) + seq![',']),
        _ => None,
    }
}

/// The Brainfuck text of a repeated command, such as `+++`; `None` for fused instructions.
pub open spec fn plain_text(i: Instruction) -> Option<Seq<char>> {
    match i {
        Instruction::PtrIncrement(n) => Some(repeat_char('>', n as nat)),
        Instruction::PtrDecrement(n) => Some(repeat_char('<', n as nat)),
        Instruction::Add(n) => Some(repeat_char('+', n as nat)),
        Instruction::Sub(n) => Some(repeat_char('-', n as nat)),
        Instruction::Output(n) => Some(repeat_char('.', n as nat)),
        Instruction::Input(n) => Some(repeat_char(',', n as nat)),
        _ => None,
    }
}

impl Instruction {
    pub fn from_token(token: &Token) -> (r: Option<Self>)
        ensures
            r == token_instruction(*token),
    {
        match token {
            Token::Greater => Some(Self::PtrIncrement(1)),
            Token::Less => Some(Self::PtrDecrement(1)),
            Token::Plus => Some(Self::Add(1)),
            Token::Minus => Some(Self::Sub(1)),
            Token::Period => Some(Self::Output(1)),
            Token::Comma => Some(Self::Input(1)),
            Token::LeftBracket | Token::RightBracket => None,
        }
    }

    fn command(self) -> (r: Option<(usize, char)>)
        ensures
            r matches Some((n, c)) ==> compressed_text(self) == Some(decimal(n as nat) + seq![c])
                && plain_text(self) == Some(repeat_char(c, n as nat)),
            r is None ==> compressed_text(self) is None && plain_text(self) is None,
    {
        match self {
            Instruction::PtrIncrement(n) => Some((n, '>')),
            Instruction::PtrDecrement(n) => Some((n, '<')),
            Instruction::Add(n) => Some((n as usize, '+')),
            Instruction::Sub(n) => Some((n as usize, '-')),
            Instruction::Output(n) => Some((n, '.')),
            Instruction::Input(n) => Some((n, ',')),
            _ => None,
        }
    }

    pub fn to_compressed_string(self) -> (r: Option<String>)
        ensures
            match compressed_text(self) {
                Some(t) => r matches Some(s) && s@ == t,
                None => r is None,
            },
    {
        match self.command() {
            Some((n, c)) => {
                let mut s = String::new();
                push_decimal(&mut s, n as u64);
                push_char(&mut s, c);
                Some(s)
            },
            None => None,
        }
    }

    pub fn to_string(self) -> (r: Option<String>)
        ensures
            match plain_text(self) {
                Some(t) => r matches Some(s) && s@ == t,
                None => r is None,
            },
    {
        match self.command() {
            Some((n, c)) => {
                let mut s = String::new();
                push_repeat(&mut s, c, n);
                assert(s@ =~= repeat_char(c, n as nat));
                Some(s)
            },
            None => None,
        }
    }
}


/// Commands that change nothing: a move, change or repeat by zero.
pub open spec fn no_action(i: Instruction) -> bool {
    match i {
        Instruction::PtrIncrement(0) | Instruction::PtrDecrement(0) | Instruction::Add(0) | Instruction::Sub(0) => true,
        _ => false,
    }
}

/// What `merge` needs of its operands: sums of counts stay within `usize`, and pointer moves
/// fit in `isize`.
pub open spec fn mergeable(a: Instruction, b: Instruction) -> bool {
    match (a, b) {
        (Instruction::PtrIncrement(x), Instruction::PtrIncrement(y)) => x + y <= usize::MAX,
        (Instruction::PtrDecrement(x), Instruction::PtrDecrement(y)) => x + y <= usize::MAX,
        (Instruction::PtrIncrement(x), Instruction::PtrDecrement(y)) => x <= isize::MAX && y <= isize::MAX,
        (Instruction::PtrDecrement(x), Instruction::PtrIncrement(y)) => x <= isize::MAX && y <= isize::MAX,
        (Instruction::Output(x), Instruction::Output(y)) => x + y <= usize::MAX,
        _ => true,
    }
}

/// `x - y` on bytes, as an addition or a subtraction of its magnitude.
pub open spec fn net_add(x: u8, y: u8) -> Instruction {
    if x >= y {
        Instruction::Add((x - y) as u8)
    } else {
        Instruction::Sub((y - x) as u8)
    }
}

/// `x - y` on pointer moves, as a move right or left by its magnitude.
pub open spec fn net_move(x: usize, y: usize) -> Instruction {
    if x >= y {
        Instruction::PtrIncrement((x - y) as usize)
    } else {
        Instruction::PtrDecrement((y - x) as usize)
    }
}

/// The rules by which two consecutive commands fuse into one: repeats of a command add up,
/// opposite commands net out, and a command that changes nothing gives way to the other.
pub open spec fn merge_rule(a: Instruction, b: Instruction) -> Option<Instruction> {
    match (a, b) {
        (Instruction::Add(x), Instruction::Add(y)) => Some(Instruction::Add(vstd::wrapping::u8_specs::wrapping_add(x, y))),
        (Instruction::Sub(x), Instruction::Sub(y)) => Some(Instruction::Sub(vstd::wrapping::u8_specs::wrapping_add(x, y))),
        (Instruction::Add(x), Instruction::Sub(y)) => Some(net_add(x, y)),
        (Instruction::Sub(y), Instruction::Add(x)) => Some(net_add(x, y)),
        (Instruction::PtrIncrement(x), Instruction::PtrIncrement(y)) => Some(Instruction::PtrIncrement((x + y) as usize)),
        (Instruction::PtrDecrement(x), Instruction::PtrDecrement(y)) => Some(Instruction::PtrDecrement((x + y) as usize)),
        (Instruction::PtrIncrement(x), Instruction::PtrDecrement(y)) => Some(net_move(x, y)),
        (Instruction::PtrDecrement(y), Instruction::PtrIncrement(x)) => Some(net_move(x, y)),
        (Instruction::Output(x), Instruction::Output(y)) => Some(Instruction::Output((x + y) as usize)),
        _ => if no_action(a) {
            Some(b)
        } else if no_action(b) {
            Some(a)
        } else {
            None
        },
    }
}

impl Instruction {
    pub fn is_no_action(&self) -> (r: bool)
        ensures
            r == no_action(*self),
    {
        matches!(self, Instruction::PtrIncrement(0) | Instruction::PtrDecrement(0) | Instruction::Add(0) | Instruction::Sub(0))
    }

    /// Whether the two commands can be fused without a count leaving its type.
    pub fn can_merge(self, other: Instruction) -> (r: bool)
        ensures
            r == mergeable(self, other),
    {
        match (self, other) {
            (Instruction::PtrIncrement(x), Instruction::PtrIncrement(y)) => x <= usize::MAX - y,
            (Instruction::PtrDecrement(x), Instruction::PtrDecrement(y)) => x <= usize::MAX - y,
            (Instruction::PtrIncrement(x), Instruction::PtrDecrement(y)) => x <= isize::MAX as usize && y <= isize::MAX as usize,
            (Instruction::PtrDecrement(x), Instruction::PtrIncrement(y)) => x <= isize::MAX as usize && y <= isize::MAX as usize,
            (Instruction::Output(x), Instruction::Output(y)) => x <= usize::MAX - y,
            _ => true,
        }
    }

    /// Fuses this command with the one that follows it, when the two have the effect of one.
    pub fn merge(self, other: Instruction) -> (r: Option<Instruction>)
        requires
            mergeable(self, other),
        ensures
            r == merge_rule(self, other),
    {
        match (self, other) {
            (Instruction::Add(x), Instruction::Add(y)) => Some(Instruction::Add(x.wrapping_add(y))),
            (Instruction::Sub(x), Instruction::Sub(y)) => Some(Instruction::Sub(x.wrapping_add(y))),
            (Instruction::Add(x), Instruction::Sub(y)) | (Instruction::Sub(y), Instruction::Add(x)) => {
                if x >= y {
                    Some(Instruction::Add(x - y))
                } else {
                    Some(Instruction::Sub(y - x))
                }
            },
            (Instruction::PtrIncrement(x), Instruction::PtrIncrement(y)) => Some(Instruction::PtrIncrement(x + y)),
            (Instruction::PtrDecrement(x), Instruction::PtrDecrement(y)) => Some(Instruction::PtrDecrement(x + y)),
            (Instruction::PtrIncrement(x), Instruction::PtrDecrement(y)) | (Instruction::PtrDecrement(y), Instruction::PtrIncrement(x)) => {
                if x >= y {
                    Some(Instruction::PtrIncrement(x - y))
                } else {
                    Some(Instruction::PtrDecrement(y - x))
                }
            },
            (Instruction::Output(x), Instruction::Output(y)) => Some(Instruction::Output(x + y)),
            _ => if self.is_no_action() {
                Some(other)
            } else if other.is_no_action() {
                Some(self)
            } else {
                None
            },
        }
    }
}

} // verus!
