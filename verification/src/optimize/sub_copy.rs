//! Loops that take the current cell off one cell and add it to another.

use vstd::prelude::*;
use crate::optimize::{Optimizer, while_run, while_run_of, yields_run};
use crate::parse::ExprKind;
use crate::token::Instruction;

verus! {

pub struct SubCopyOptimizer;

/// `[-<-<+>>]`, `[->-<<+>]` and `[<->-<+>]` in general form.
pub open spec fn sub_copy_rule(b: Seq<Instruction>) -> Option<Seq<Instruction>> {
    let six = if b.len() == 6 {
        match (b[0], b[1], b[2], b[3], b[4], b[5]) {
            (Instruction::Sub(1), Instruction::PtrDecrement(x), Instruction::Sub(1), Instruction::PtrDecrement(y),
                Instruction::Add(1), Instruction::PtrIncrement(z)) =>
                if x + y == z { Some(seq![Instruction::SubToRev(x), Instruction::CopyRev(z), Instruction::ZeroSet]) } else { None },
            (Instruction::Sub(1), Instruction::PtrIncrement(x), Instruction::Sub(1), Instruction::PtrDecrement(y),
                Instruction::Add(1), Instruction::PtrIncrement(z)) =>
                if x + z == y { Some(seq![Instruction::SubTo(x), Instruction::CopyRev((y - x) as usize), Instruction::ZeroSet]) } else { None },
            _ => None,
        }
    } else {
        None
    };
    let seven = if b.len() == 7 {
        match (b[0], b[1], b[2], b[3], b[4], b[5], b[6]) {
            (Instruction::PtrDecrement(x), Instruction::Sub(1), Instruction::PtrIncrement(y), Instruction::Sub(1),
                Instruction::PtrDecrement(z), Instruction::Add(1), Instruction::PtrIncrement(a)) =>
                if x + z == y + a { Some(seq![Instruction::SubToRev(x), Instruction::CopyRev(z), Instruction::ZeroSet]) } else { None },
            _ => None,
        }
    } else {
        None
    };
    if six is Some { six } else { seven }
}

impl Optimizer for SubCopyOptimizer {
    /// Turns `[-<-<+>>]` into `SubToRev(1)`, `CopyRev(2)` and `ZeroSet`, and the like.
    fn optimize_expr(&self, expr: &ExprKind) -> (r: Option<ExprKind>)
        ensures
            yields_run(r, match while_run(*expr) {
                Some(b) => sub_copy_rule(b),
                None => None,
            }),
    {
        let b = match while_run_of(expr) {
            Some(b) => b,
            None => return None,
        };
        if b.len() == 6 {
            match (b[0], b[1], b[2], b[3], b[4], b[5]) {
                (Instruction::Sub(1), Instruction::PtrDecrement(x), Instruction::Sub(1), Instruction::PtrDecrement(y),
                    Instruction::Add(1), Instruction::PtrIncrement(z)) => {
                    if z >= y && x == z - y {
                        let v = vec![Instruction::SubToRev(x), Instruction::CopyRev(z), Instruction::ZeroSet];
                        assert(v@ =~= seq![Instruction::SubToRev(x), Instruction::CopyRev(z), Instruction::ZeroSet]);
                        Some(ExprKind::Instructions(v))
                    } else {
                        None
                    }
                },
                (Instruction::Sub(1), Instruction::PtrIncrement(x), Instruction::Sub(1), Instruction::PtrDecrement(y),
                    Instruction::Add(1), Instruction::PtrIncrement(z)) => {
                    if y >= x && y - x == z {
                        let d = y - x;
                        let v = vec![Instruction::SubTo(x), Instruction::CopyRev(d), Instruction::ZeroSet];
                        assert(v@ =~= seq![Instruction::SubTo(x), Instruction::CopyRev((y - x) as usize), Instruction::ZeroSet]);
                        Some(ExprKind::Instructions(v))
                    } else {
                        None
                    }
                },
                _ => None,
            }
        } else if b.len() == 7 {
            match (b[0], b[1], b[2], b[3], b[4], b[5], b[6]) {
                (Instruction::PtrDecrement(x), Instruction::Sub(1), Instruction::PtrIncrement(y), Instruction::Sub(1),
                    Instruction::PtrDecrement(z), Instruction::Add(1), Instruction::PtrIncrement(a)) => {
                    if x as u128 + z as u128 == y as u128 + a as u128 {
                        let v = vec![Instruction::SubToRev(x), Instruction::CopyRev(z), Instruction::ZeroSet];
                        assert(v@ =~= seq![Instruction::SubToRev(x), Instruction::CopyRev(z), Instruction::ZeroSet]);
                        Some(ExprKind::Instructions(v))
                    } else {
                        None
                    }
                },
                _ => None,
            }
        } else {
            None
        }
    }
}

} // verus!
