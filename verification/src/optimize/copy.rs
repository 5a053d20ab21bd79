//! Loops that copy the current cell into two or three cells to the right.

use vstd::prelude::*;
use crate::optimize::{Optimizer, while_run, while_run_of, yields_run};
use crate::parse::ExprKind;
use crate::token::Instruction;

verus! {

pub struct CopyOptimizer;

/// `[->+>+<<]`, `[->>+<+<]` and `[->>>+<+<+<]` in general form: the counter is added to
/// each cell it visits, and the pointer comes back.
pub open spec fn copy_rule(b: Seq<Instruction>) -> Option<Seq<Instruction>> {
    let first = if b.len() == 6 {
        match (b[0], b[1], b[2], b[3], b[4], b[5]) {
            (Instruction::Sub(1), Instruction::PtrIncrement(x), Instruction::Add(1), Instruction::PtrIncrement(y),
                Instruction::Add(1), Instruction::PtrDecrement(z)) =>
                if x + y == z { Some(seq![Instruction::Copy(x), Instruction::Copy(z), Instruction::ZeroSet]) } else { None },
            _ => None,
        }
    } else {
        None
    };
    let second = if b.len() == 6 {
        match (b[0], b[1], b[2], b[3], b[4], b[5]) {
            (Instruction::Sub(1), Instruction::PtrIncrement(x), Instruction::Add(1), Instruction::PtrDecrement(y),
                Instruction::Add(1), Instruction::PtrDecrement(z)) =>
                if x == y + z { Some(seq![Instruction::Copy(x), Instruction::Copy((x - y) as usize), Instruction::ZeroSet]) } else { None },
            _ => None,
        }
    } else {
        None
    };
    let third = if b.len() == 8 {
        match (b[0], b[1], b[2], b[3], b[4], b[5], b[6], b[7]) {
            (Instruction::Sub(1), Instruction::PtrIncrement(x), Instruction::Add(1), Instruction::PtrDecrement(y),
                Instruction::Add(1), Instruction::PtrDecrement(z), Instruction::Add(1), Instruction::PtrDecrement(a)) =>
                if x == y + z + a {
                    Some(seq![Instruction::Copy(x), Instruction::Copy((x - y) as usize), Instruction::Copy((x - y - z) as usize), Instruction::ZeroSet])
                } else {
                    None
                },
            _ => None,
        }
    } else {
        None
    };
    if first is Some { first } else if second is Some { second } else { third }
}

impl Optimizer for CopyOptimizer {
    /// Turns `[->+>+<<]` into `Copy(1)`, `Copy(2)` and `ZeroSet`, and the like.
    fn optimize_expr(&self, expr: &ExprKind) -> (r: Option<ExprKind>)
        ensures
            yields_run(r, match while_run(*expr) {
                Some(b) => copy_rule(b),
                None => None,
            }),
    {
        let b = match while_run_of(expr) {
            Some(b) => b,
            None => return None,
        };
        if b.len() == 6 {
            match (b[0], b[1], b[2], b[3], b[4], b[5]) {
                (Instruction::Sub(1), Instruction::PtrIncrement(x), Instruction::Add(1), Instruction::PtrIncrement(y),
                    Instruction::Add(1), Instruction::PtrDecrement(z)) => {
                    if z >= y && x == z - y {
                        let v = vec![Instruction::Copy(x), Instruction::Copy(z), Instruction::ZeroSet];
                        assert(v@ =~= seq![Instruction::Copy(x), Instruction::Copy(z), Instruction::ZeroSet]);
                        return Some(ExprKind::Instructions(v));
                    }
                },
                (Instruction::Sub(1), Instruction::PtrIncrement(x), Instruction::Add(1), Instruction::PtrDecrement(y),
                    Instruction::Add(1), Instruction::PtrDecrement(z)) => {
                    if x >= y && x - y == z {
                        let d = x - y;
                        let v = vec![Instruction::Copy(x), Instruction::Copy(d), Instruction::ZeroSet];
                        assert(v@ =~= seq![Instruction::Copy(x), Instruction::Copy((x - y) as usize), Instruction::ZeroSet]);
                        return Some(ExprKind::Instructions(v));
                    }
                },
                _ => {},
            }
            None
        } else if b.len() == 8 {
            match (b[0], b[1], b[2], b[3], b[4], b[5], b[6], b[7]) {
                (Instruction::Sub(1), Instruction::PtrIncrement(x), Instruction::Add(1), Instruction::PtrDecrement(y),
                    Instruction::Add(1), Instruction::PtrDecrement(z), Instruction::Add(1), Instruction::PtrDecrement(a)) => {
                    if x >= y && x - y >= z && x - y - z == a {
                        let d = x - y;
                        let e = x - y - z;
                        let v = vec![Instruction::Copy(x), Instruction::Copy(d), Instruction::Copy(e), Instruction::ZeroSet];
                        assert(v@ =~= seq![Instruction::Copy(x), Instruction::Copy((x - y) as usize), Instruction::Copy((x - y - z) as usize), Instruction::ZeroSet]);
                        Some(ExprKind::Instructions(v))
                    } else {
                        None
                    }
                },
                _ => None,
            }
        } else {
            None
        }
    }
}

} // verus!
