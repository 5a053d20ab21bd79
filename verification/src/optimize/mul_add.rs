//! `[->>>+++<<<]` adds a multiple of the current cell to a cell to the right and clears it.

use vstd::prelude::*;
use crate::optimize::{Optimizer, while_run, while_run_of, yields_run};
use crate::parse::ExprKind;
use crate::token::Instruction;

verus! {

pub struct MulAddOptimizer;

/// A loop that adds `n` (more than one) to the cell `x` to the right for each unit of its counter.
pub open spec fn mul_add_rule(b: Seq<Instruction>) -> Option<Seq<Instruction>> {
    if b.len() == 4 {
        match (b[0], b[1], b[2], b[3]) {
            (Instruction::PtrIncrement(x), Instruction::Add(n), Instruction::PtrDecrement(y), Instruction::Sub(1))
            | (Instruction::Sub(1), Instruction::PtrIncrement(x), Instruction::Add(n), Instruction::PtrDecrement(y)) =>
                if x == y && n > 1 { Some(seq![Instruction::MulAdd(x, n), Instruction::ZeroSet]) } else { None },
            _ => None,
        }
    } else {
        None
    }
}

impl Optimizer for MulAddOptimizer {
    /// Turns `[->>>+++<<<]` into `MulAdd(3, 3)` and `ZeroSet`.
    fn optimize_while(&self, expr: &ExprKind) -> (r: Option<ExprKind>)
        ensures
            yields_run(r, match while_run(*expr) {
                Some(b) => mul_add_rule(b),
                None => None,
            }),
    {
        let b = match while_run_of(expr) {
            Some(b) => b,
            None => return None,
        };
        if b.len() == 4 {
            match (b[0], b[1], b[2], b[3]) {
                (Instruction::PtrIncrement(x), Instruction::Add(n), Instruction::PtrDecrement(y), Instruction::Sub(1))
                | (Instruction::Sub(1), Instruction::PtrIncrement(x), Instruction::Add(n), Instruction::PtrDecrement(y)) => {
                    if x == y && n > 1 {
                        let v = vec![Instruction::MulAdd(x, n), Instruction::ZeroSet];
                        assert(v@ =~= seq![Instruction::MulAdd(x, n), Instruction::ZeroSet]);
                        Some(ExprKind::Instructions(v))
                    } else {
                        None
                    }
                },
                _ => None,
            }
        } else {
            None
        }
    }
}

} // verus!
