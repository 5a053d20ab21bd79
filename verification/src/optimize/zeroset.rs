//! `[-]` and `[+]` clear the current cell.

use vstd::prelude::*;
use crate::optimize::{Optimizer, while_run, while_run_of, yields_run};
use crate::parse::ExprKind;
use crate::token::Instruction;

verus! {

pub struct ZeroSetOptimizer;

/// A loop that only steps its cell by one clears it.
pub open spec fn zeroset_rule(body: Seq<Instruction>) -> Option<Seq<Instruction>> {
    if body == seq![Instruction::Sub(1)] || body == seq![Instruction::Add(1)] {
        Some(seq![Instruction::ZeroSet])
    } else {
        None
    }
}

impl Optimizer for ZeroSetOptimizer {
    /// Turns `[-]` (or `[+]`) into `ZeroSet`.
    fn optimize_expr(&self, expr: &ExprKind) -> (r: Option<ExprKind>)
        ensures
            yields_run(r, match while_run(*expr) {
                Some(b) => zeroset_rule(b),
                None => None,
            }),
    {
        match while_run_of(expr) {
            Some(instructions) => {
                if instructions.len() == 1 && (matches!(instructions[0], Instruction::Sub(1)) || matches!(instructions[0], Instruction::Add(1))) {
                    assert(instructions@ =~= seq![instructions@[0]]);
                    let mut out: Vec<Instruction> = Vec::new();
                    out.push(Instruction::ZeroSet);
                    assert(out@ =~= seq![Instruction::ZeroSet]);
                    Some(ExprKind::Instructions(out))
                } else {
                    proof {
                        if instructions@.len() == 1 {
                            assert(seq![Instruction::Sub(1)][0] == Instruction::Sub(1));
                        }
                    }
                    None
                }
            },
            None => None,
        }
    }
}

} // verus!
