//! `[<+++>-]` adds a multiple of the current cell to a cell to the left.

use vstd::prelude::*;
use crate::optimize::{Optimizer, while_run, while_run_of, yields_run};
use crate::parse::ExprKind;
use crate::token::Instruction;

verus! {

pub struct MulAddRevOptimizer;

/// A loop that adds `n` to the cell `x` to the left for each unit of its counter; the
/// factor is taken modulo 255.
pub open spec fn mul_add_rev_rule(b: Seq<Instruction>) -> Option<Seq<Instruction>> {
    if b.len() == 4 {
        match (b[0], b[1], b[2], b[3]) {
            (Instruction::PtrDecrement(x), Instruction::Add(n), Instruction::PtrIncrement(y), Instruction::Sub(1)) =>
                if x == y { Some(seq![Instruction::MulAddRev(x, (n % 255) as u8)]) } else { None },
            _ => None,
        }
    } else {
        None
    }
}

impl Optimizer for MulAddRevOptimizer {
    /// Turns `[<+++>-]` into `MulAddRev(1, 3)`.
    fn optimize_expr(&self, expr: &ExprKind) -> (r: Option<ExprKind>)
        ensures
            yields_run(r, match while_run(*expr) {
                Some(b) => mul_add_rev_rule(b),
                None => None,
            }),
    {
        let b = match while_run_of(expr) {
            Some(b) => b,
            None => return None,
        };
        if b.len() == 4 {
            match (b[0], b[1], b[2], b[3]) {
                (Instruction::PtrDecrement(x), Instruction::Add(n), Instruction::PtrIncrement(y), Instruction::Sub(1)) => {
                    if x == y {
                        let add_count = (n as usize % 255) as u8;
                        let v = vec![Instruction::MulAddRev(x, add_count)];
                        assert(v@ =~= seq![Instruction::MulAddRev(x, (n % 255) as u8)]);
                        Some(ExprKind::Instructions(v))
                    } else {
                        None
                    }
                },
                _ => None,
            }
        } else {
            None
        }
    }
}

} // verus!
