//! `+n[->+m<]` sets the next cell to `n * m`.

use vstd::prelude::*;
use crate::optimize::Optimizer;
use crate::parse::{ExprKind, ExprModel, Node, clone_expr, exprs_model, lemma_exprs_model_index,
    lemma_exprs_model_len, lemma_exprs_model_push};
use crate::token::Instruction;

verus! {

pub struct SetValueOptimizer;

/// A node that starts with a run ending in `Add(n)`, a loop `[-` `>`×k `+`×m `<`×k `]` and a
/// run: the loop and the `Add(n)` become `SetValue(k, n * m mod 255)` between the two runs.
pub open spec fn set_value_rule(ms: Seq<ExprModel>) -> Option<Seq<ExprModel>> {
    if ms.len() >= 3 && ms[0] is Instructions && ms[1] is While && ms[2] is Instructions {
        let ins = ms[0]->Instructions_0;
        let w = ms[1]->While_0;
        let s = ms[2]->Instructions_0;
        if ins.len() > 0 && ins.last() is Add && w.len() == 1 && w[0] is Instructions
            && w[0]->Instructions_0.len() == 4 {
            let b = w[0]->Instructions_0;
            match (b[0], b[1], b[2], b[3]) {
                (Instruction::Sub(1), Instruction::PtrIncrement(p), Instruction::Add(x), Instruction::PtrDecrement(q)) =>
                    if p == q {
                        let n = ins.last()->Add_0;
                        let v = ((n * x) % 255) as u8;
                        Some(seq![ExprModel::Instructions(ins.drop_last().push(Instruction::SetValue(p, v)) + s)] + ms.skip(3))
                    } else {
                        None
                    },
                _ => None,
            }
        } else {
            None
        }
    } else {
        None
    }
}

impl Optimizer for SetValueOptimizer {
    /// Turns `+n[->+m<]` at the start of a node into `SetValue(1, n * m)`.
    fn optimize_node(&self, node: &Node) -> (r: Option<Node>)
        ensures
            match set_value_rule(exprs_model(node.0@)) {
                Some(m) => r matches Some(n) && exprs_model(n.0@) == m,
                None => r is None,
            },
    {
        let kinds = &node.0;
        let ghost ms = exprs_model(kinds@);
        proof { lemma_exprs_model_len(kinds@); }
        if kinds.len() < 3 {
            return None;
        }
        proof {
            lemma_exprs_model_index(kinds@, 0);
            lemma_exprs_model_index(kinds@, 1);
            lemma_exprs_model_index(kinds@, 2);
        }
        let (instructions, while_node, s) = match (&kinds[0], &kinds[1], &kinds[2]) {
            (ExprKind::Instructions(a), ExprKind::While(b), ExprKind::Instructions(c)) => (a, b, c),
            _ => return None,
        };
        let len = instructions.len();
        if len == 0 {
            return None;
        }
        let n = match instructions[len - 1] {
            Instruction::Add(n) => n,
            _ => return None,
        };
        if while_node.0.len() != 1 {
            proof { lemma_exprs_model_len(while_node.0@); }
            return None;
        }
        proof { lemma_exprs_model_index(while_node.0@, 0); }
        let b = match &while_node.0[0] {
            ExprKind::Instructions(b) => b,
            _ => return None,
        };
        if b.len() != 4 {
            return None;
        }
        let (p, x) = match (b[0], b[1], b[2], b[3]) {
            (Instruction::Sub(1), Instruction::PtrIncrement(p), Instruction::Add(x), Instruction::PtrDecrement(q)) => {
                if p != q {
                    return None;
                }
                (p, x)
            },
            _ => return None,
        };
        assert(n as usize * x as usize <= 255 * 255) by (nonlinear_arith)
            requires
                n <= 255,
                x <= 255,
        ;
        let value = ((n as usize * x as usize) % 255) as u8;
        let mut run: Vec<Instruction> = Vec::new();
        let mut i: usize = 0;
        while i < len - 1
            invariant
                len == instructions@.len(),
                i <= len - 1,
                run@ == instructions@.take(i as int),
            decreases len - 1 - i,
        {
            run.push(instructions[i]);
            i = i + 1;
            assert(run@ =~= instructions@.take(i as int));
        }
        run.push(Instruction::SetValue(p, value));
        let mut j: usize = 0;
        let ghost head = run@;
        while j < s.len()
            invariant
                j <= s@.len(),
                run@ == head + s@.take(j as int),
            decreases s@.len() - j,
        {
            run.push(s[j]);
            j = j + 1;
            assert(run@ =~= head + s@.take(j as int));
        }
        assert(s@.take(s@.len() as int) =~= s@);
        assert(instructions@.take(len - 1) =~= instructions@.drop_last());
        let mut node_kinds: Vec<ExprKind> = Vec::new();
        let first = ExprKind::Instructions(run);
        proof { lemma_exprs_model_push(node_kinds@, first); }
        node_kinds.push(first);
        let ghost lead = exprs_model(node_kinds@);
        let mut k: usize = 3;
        assert(ms.skip(3).take(0) =~= Seq::<ExprModel>::empty());
        while k < kinds.len()
            invariant
                ms == exprs_model(kinds@),
                ms.len() == kinds@.len(),
                3 <= k <= kinds@.len(),
                exprs_model(node_kinds@) == lead + ms.skip(3).take(k - 3),
            decreases kinds@.len() - k,
        {
            let c = clone_expr(&kinds[k]);
            proof {
                lemma_exprs_model_index(kinds@, k as int);
                lemma_exprs_model_push(node_kinds@, c);
                assert(ms.skip(3).take(k + 1 - 3) =~= ms.skip(3).take(k - 3).push(ms[k as int]));
            }
            node_kinds.push(c);
            k = k + 1;
        }
        assert(ms.skip(3).take(kinds@.len() - 3) =~= ms.skip(3));
        assert(lead =~= seq![ExprModel::Instructions(instructions@.drop_last().push(Instruction::SetValue(p, value)) + s@)]);
        Some(Node(node_kinds))
    }
}

} // verus!
