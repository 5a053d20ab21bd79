//! `[->>>+<<<]` adds the current cell to a cell to the right and clears it.

use vstd::prelude::*;
use crate::optimize::{Optimizer, while_run, while_run_of, yields_run};
use crate::parse::ExprKind;
use crate::token::Instruction;

verus! {

pub struct MoveAddOptimizer;

/// A loop that moves its counter into the cell `x` to the right, one by one.
pub open spec fn move_add_rule(b: Seq<Instruction>) -> Option<Seq<Instruction>> {
    if b.len() == 4 {
        match (b[0], b[1], b[2], b[3]) {
            (Instruction::Sub(1), Instruction::PtrIncrement(x), Instruction::Add(1), Instruction::PtrDecrement(y))
            | (Instruction::PtrIncrement(x), Instruction::Add(1), Instruction::PtrDecrement(y), Instruction::Sub(1)) =>
                if x == y { Some(seq![Instruction::AddTo(x), Instruction::ZeroSet]) } else { None },
            _ => None,
        }
    } else {
        None
    }
}

impl Optimizer for MoveAddOptimizer {
    /// Turns `[->>>+<<<]` (or `[>>>+<<<-]`) into `AddTo(3)` and `ZeroSet`.
    fn optimize_expr(&self, expr: &ExprKind) -> (r: Option<ExprKind>)
        ensures
            yields_run(r, match while_run(*expr) {
                Some(b) => move_add_rule(b),
                None => None,
            }),
    {
        let b = match while_run_of(expr) {
            Some(b) => b,
            None => return None,
        };
        if b.len() == 4 {
            match (b[0], b[1], b[2], b[3]) {
                (Instruction::Sub(1), Instruction::PtrIncrement(x), Instruction::Add(1), Instruction::PtrDecrement(y))
                | (Instruction::PtrIncrement(x), Instruction::Add(1), Instruction::PtrDecrement(y), Instruction::Sub(1)) => {
                    if x == y {
                        let v = vec![Instruction::AddTo(x), Instruction::ZeroSet];
                        assert(v@ =~= seq![Instruction::AddTo(x), Instruction::ZeroSet]);
                        Some(ExprKind::Instructions(v))
                    } else {
                        None
                    }
                },
                _ => None,
            }
        } else {
            None
        }
    }
}

} // verus!
