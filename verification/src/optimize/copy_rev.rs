//! Loops that copy the current cell into two cells to the left.

use vstd::prelude::*;
use crate::optimize::{Optimizer, while_run, while_run_of, yields_run};
use crate::parse::ExprKind;
use crate::token::Instruction;

verus! {

pub struct CopyRevOptimizer;

/// `[-<+<+>>]` and `[-<+>+<<]` in general form: the counter is added to each cell it visits,
/// and the pointer comes back.
pub open spec fn copy_rev_rule(b: Seq<Instruction>) -> Option<Seq<Instruction>> {
    if b.len() == 6 {
        match (b[0], b[1], b[2], b[3], b[4], b[5]) {
            (Instruction::Sub(1), Instruction::PtrDecrement(x), Instruction::Add(1), Instruction::PtrDecrement(y),
                Instruction::Add(1), Instruction::PtrIncrement(z)) =>
                if x + y == z { Some(seq![Instruction::CopyRev(x), Instruction::CopyRev(z), Instruction::ZeroSet]) } else { None },
            (Instruction::Sub(1), Instruction::PtrDecrement(x), Instruction::Add(1), Instruction::PtrIncrement(y),
                Instruction::Add(1), Instruction::PtrIncrement(z)) =>
                if x == y + z { Some(seq![Instruction::CopyRev(x), Instruction::CopyRev((x - y) as usize), Instruction::ZeroSet]) } else { None },
            _ => None,
        }
    } else {
        None
    }
}

impl Optimizer for CopyRevOptimizer {
    /// Turns `[-<+<+>>]` into `CopyRev(1)`, `CopyRev(2)` and `ZeroSet`, and the like.
    fn optimize_expr(&self, expr: &ExprKind) -> (r: Option<ExprKind>)
        ensures
            yields_run(r, match while_run(*expr) {
                Some(b) => copy_rev_rule(b),
                None => None,
            }),
    {
        let b = match while_run_of(expr) {
            Some(b) => b,
            None => return None,
        };
        if b.len() == 6 {
            match (b[0], b[1], b[2], b[3], b[4], b[5]) {
                (Instruction::Sub(1), Instruction::PtrDecrement(x), Instruction::Add(1), Instruction::PtrDecrement(y),
                    Instruction::Add(1), Instruction::PtrIncrement(z)) => {
                    if z >= y && x == z - y {
                        let v = vec![Instruction::CopyRev(x), Instruction::CopyRev(z), Instruction::ZeroSet];
                        assert(v@ =~= seq![Instruction::CopyRev(x), Instruction::CopyRev(z), Instruction::ZeroSet]);
                        Some(ExprKind::Instructions(v))
                    } else {
                        None
                    }
                },
                (Instruction::Sub(1), Instruction::PtrDecrement(x), Instruction::Add(1), Instruction::PtrIncrement(y),
                    Instruction::Add(1), Instruction::PtrIncrement(z)) => {
                    if x >= y && x - y == z {
                        let d = x - y;
                        let v = vec![Instruction::CopyRev(x), Instruction::CopyRev(d), Instruction::ZeroSet];
                        assert(v@ =~= seq![Instruction::CopyRev(x), Instruction::CopyRev((x - y) as usize), Instruction::ZeroSet]);
                        Some(ExprKind::Instructions(v))
                    } else {
                        None
                    }
                },
                _ => None,
            }
        } else {
            None
        }
    }
}

} // verus!
