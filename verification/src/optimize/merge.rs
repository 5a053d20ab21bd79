//! Fusing neighbouring commands of a run.

use vstd::prelude::*;
use crate::optimize::Optimizer;
use crate::parse::ExprKind;
use crate::token::{Instruction, mergeable, merge_rule};

verus! {

pub struct MergeOptimizer;

/// The commands folded from the left: each one fuses with the one before it when the two
/// have the effect of one (and their counts stay in range), and is appended otherwise.
pub open spec fn merge_run(s: Seq<Instruction>) -> Seq<Instruction>
    decreases s.len(),
{
    if s.len() == 0 {
        Seq::empty()
    } else {
        let acc = merge_run(s.drop_last());
        let x = s.last();
        if acc.len() == 0 {
            seq![x]
        } else if mergeable(acc.last(), x) && merge_rule(acc.last(), x) is Some {
            acc.drop_last().push(merge_rule(acc.last(), x)->0)
        } else {
            acc.push(x)
        }
    }
}

impl Optimizer for MergeOptimizer {
    /// Fuses the commands of a run; loops are left alone.
    fn optimize_expr(&self, expr: &ExprKind) -> (r: Option<ExprKind>)
        ensures
            match *expr {
                ExprKind::Instructions(v) => r matches Some(ExprKind::Instructions(w)) && w@ == merge_run(v@),
                _ => r is None,
            },
    {
        if let ExprKind::Instructions(instructions) = expr {
            let mut new_expr: Vec<Instruction> = Vec::new();
            let mut i: usize = 0;
            assert(instructions@.take(0) =~= Seq::<Instruction>::empty());
            while i < instructions.len()
                invariant
                    i <= instructions@.len(),
                    new_expr@ == merge_run(instructions@.take(i as int)),
                decreases instructions@.len() - i,
            {
                let instruction = instructions[i];
                proof {
                    assert(instructions@.take(i + 1).drop_last() =~= instructions@.take(i as int));
                    assert(instructions@.take(i + 1).last() == instruction);
                }
                match new_expr.pop() {
                    Some(top) => {
                        let merged = if top.can_merge(instruction) { top.merge(instruction) } else { None };
                        match merged {
                            Some(m) => new_expr.push(m),
                            None => {
                                new_expr.push(top);
                                new_expr.push(instruction);
                            },
                        }
                    },
                    None => new_expr.push(instruction),
                }
                i = i + 1;
            }
            assert(instructions@.take(instructions@.len() as int) =~= instructions@);
            Some(ExprKind::Instructions(new_expr))
        } else {
            None
        }
    }
}

} // verus!
