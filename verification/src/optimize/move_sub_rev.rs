//! `[-<<<->>>]` subtracts the current cell from a cell to the left and clears it.

use vstd::prelude::*;
use crate::optimize::{Optimizer, while_run, while_run_of, yields_run};
use crate::parse::ExprKind;
use crate::token::Instruction;

verus! {

pub struct MoveSubRevOptimizer;

/// A loop that takes its counter off the cell `x` to the left, one by one.
pub open spec fn move_sub_rev_rule(b: Seq<Instruction>) -> Option<Seq<Instruction>> {
    if b.len() == 4 {
        match (b[0], b[1], b[2], b[3]) {
            (Instruction::Sub(1), Instruction::PtrDecrement(x), Instruction::Sub(1), Instruction::PtrIncrement(y)) =>
                if x == y { Some(seq![Instruction::MoveSubRev(x)]) } else { None },
            _ => None,
        }
    } else {
        None
    }
}

impl Optimizer for MoveSubRevOptimizer {
    /// Turns `[-<<<->>>]` into `MoveSubRev(3)`.
    fn optimize_expr(&self, expr: &ExprKind) -> (r: Option<ExprKind>)
        ensures
            yields_run(r, match while_run(*expr) {
                Some(b) => move_sub_rev_rule(b),
                None => None,
            }),
    {
        let b = match while_run_of(expr) {
            Some(b) => b,
            None => return None,
        };
        if b.len() == 4 {
            match (b[0], b[1], b[2], b[3]) {
                (Instruction::Sub(1), Instruction::PtrDecrement(x), Instruction::Sub(1), Instruction::PtrIncrement(y)) => {
                    if x == y {
                        let v = vec![Instruction::MoveSubRev(x)];
                        assert(v@ =~= seq![Instruction::MoveSubRev(x)]);
                        Some(ExprKind::Instructions(v))
                    } else {
                        None
                    }
                },
                _ => None,
            }
        } else {
            None
        }
    }
}

} // verus!
