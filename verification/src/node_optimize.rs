//! A small optimizer over runs and loops: clearing loops, moving loops, and constant
//! products written as stores.

use vstd::prelude::*;
use crate::ir::reversed;
use crate::optimize::Optimizer;
use crate::optimize::set_value::{SetValueOptimizer, set_value_rule};
use crate::parse::{ExprKind, ExprModel, Node, expr_model, exprs_model, lemma_exprs_model_index,
    lemma_exprs_model_len, lemma_exprs_model_push};
use crate::token::Instruction;

verus! {

/// `[-]` clears the cell.
pub open spec fn zeroset_model(e: ExprModel) -> Option<ExprModel> {
    match e {
        ExprModel::While(body) => if body == seq![ExprModel::Instructions(seq![Instruction::Sub(1)])] {
            Some(ExprModel::Instructions(seq![Instruction::SetValue(0, 0)]))
        } else {
            None
        },
        _ => None,
    }
}

/// `[->>>+<<<]` adds the cell to the one `x` to the right, then clears it.
pub open spec fn move_add_model(e: ExprModel) -> Option<ExprModel> {
    match e {
        ExprModel::While(body) => if body.len() == 1 && body[0] is Instructions && body[0]->Instructions_0.len() == 4 {
            let b = body[0]->Instructions_0;
            match (b[0], b[1], b[2], b[3]) {
                (Instruction::Sub(1), Instruction::PtrIncrement(x), Instruction::Add(1), Instruction::PtrDecrement(y)) =>
                    if x == y { Some(ExprModel::Instructions(seq![Instruction::AddTo(x), Instruction::SetValue(0, 0)])) } else { None },
                _ => None,
            }
        } else {
            None
        },
        _ => None,
    }
}

/// One run or loop rewritten: a clearing loop or a moving loop becomes a run; any other loop
/// is rewritten inside.
pub open spec fn opt_expr_model(e: ExprModel) -> ExprModel
    decreases e, 0int,
{
    match e {
        ExprModel::While(body) => match zeroset_model(e) {
            Some(z) => match move_add_model(z) {
                Some(m) => m,
                None => z,
            },
            None => match move_add_model(e) {
                Some(m) => m,
                None => ExprModel::While(opt_node_model(body)),
            },
        },
        _ => e,
    }
}

pub open spec fn opt_exprs_model(s: Seq<ExprModel>) -> Seq<ExprModel>
    decreases s, 1int,
{
    if s.len() == 0 {
        Seq::empty()
    } else {
        opt_exprs_model(s.drop_last()).push(opt_expr_model(s.last()))
    }
}

/// A node rewritten: first its leading constant product, then each of its runs and loops.
pub open spec fn opt_node_model(ms: Seq<ExprModel>) -> Seq<ExprModel>
    decreases ms, 2int,
{
    match set_value_rule(ms) {
        Some(m) => {
            proof {
                assert(decreases_to!(ms => ms.skip(3)));
            }
            seq![m[0]] + opt_exprs_model(ms.skip(3))
        },
        None => opt_exprs_model(ms),
    }
}

/// `[-]` becomes `SetValue(0, 0)`.
pub fn opt_zeroset(expr: &ExprKind) -> (r: Option<ExprKind>)
    ensures
        match zeroset_model(expr_model(*expr)) {
            Some(m) => r matches Some(e) && expr_model(e) == m,
            None => r is None,
        },
{
    if let ExprKind::While(while_node) = expr {
        proof { lemma_exprs_model_len(while_node.0@); }
        if while_node.0.len() == 1 {
            proof { lemma_exprs_model_index(while_node.0@, 0); }
            if let ExprKind::Instructions(instructions) = &while_node.0[0] {
                if instructions.len() == 1 && matches!(instructions[0], Instruction::Sub(1)) {
                    assert(instructions@ =~= seq![Instruction::Sub(1)]);
                    assert(exprs_model(while_node.0@) =~= seq![ExprModel::Instructions(seq![Instruction::Sub(1)])]);
                    let v = vec![Instruction::SetValue(0, 0)];
                    assert(v@ =~= seq![Instruction::SetValue(0, 0)]);
                    return Some(ExprKind::Instructions(v));
                }
                proof {
                    if exprs_model(while_node.0@) == seq![ExprModel::Instructions(seq![Instruction::Sub(1)])] {
                        assert(instructions@ == seq![Instruction::Sub(1)]);
                        assert(instructions@[0] == Instruction::Sub(1));
                    }
                }
            } else {
                proof {
                    if exprs_model(while_node.0@) == seq![ExprModel::Instructions(seq![Instruction::Sub(1)])] {
                        assert(exprs_model(while_node.0@)[0] is Instructions);
                    }
                }
            }
        } else {
            proof {
                if exprs_model(while_node.0@) == seq![ExprModel::Instructions(seq![Instruction::Sub(1)])] {
                    assert(exprs_model(while_node.0@).len() == 1);
                }
            }
        }
    }
    None
}

/// `[->>>+<<<]` becomes `AddTo(3)` and `SetValue(0, 0)`.
pub fn opt_move_add(expr: &ExprKind) -> (r: Option<ExprKind>)
    ensures
        match move_add_model(expr_model(*expr)) {
            Some(m) => r matches Some(e) && expr_model(e) == m,
            None => r is None,
        },
{
    if let ExprKind::While(while_node) = expr {
        proof { lemma_exprs_model_len(while_node.0@); }
        if while_node.0.len() == 1 {
            proof { lemma_exprs_model_index(while_node.0@, 0); }
            if let ExprKind::Instructions(b) = &while_node.0[0] {
                if b.len() == 4 {
                    if let (Instruction::Sub(1), Instruction::PtrIncrement(x), Instruction::Add(1), Instruction::PtrDecrement(y))
                        = (b[0], b[1], b[2], b[3]) {
                        if x == y {
                            let v = vec![Instruction::AddTo(x), Instruction::SetValue(0, 0)];
                            assert(v@ =~= seq![Instruction::AddTo(x), Instruction::SetValue(0, 0)]);
                            return Some(ExprKind::Instructions(v));
                        }
                    }
                }
            }
        }
    }
    None
}

/// `+n[->+m<]` at the start of a node becomes `SetValue(1, n * m)`.
pub fn opt_set_value(node: &Node) -> (r: Option<Node>)
    ensures
        match set_value_rule(exprs_model(node.0@)) {
            Some(m) => r matches Some(n) && exprs_model(n.0@) == m,
            None => r is None,
        },
{
    SetValueOptimizer.optimize_node(node)
}

fn opt_expr_owned(expr: ExprKind) -> (r: ExprKind)
    ensures
        expr_model(r) == opt_expr_model(expr_model(expr)),
    decreases expr_model(expr), 0int,
{
    let expr = match opt_zeroset(&expr) {
        Some(optimized) => optimized,
        None => expr,
    };
    let expr = match opt_move_add(&expr) {
        Some(optimized) => optimized,
        None => expr,
    };
    match expr {
        ExprKind::While(while_node) => {
            proof {
                let m = expr_model(ExprKind::While(while_node));
                assert(decreases_to!(m => m->While_0));
            }
            ExprKind::While(Node(opt_exprs_vec(inner_exprs(while_node))))
        },
        other => other,
    }
}

fn inner_exprs(node: Node) -> (r: Vec<ExprKind>)
    ensures
        r@ == node.0@,
{
    node.0
}

proof fn lemma_opt_exprs_concat(a: Seq<ExprModel>, b: Seq<ExprModel>)
    ensures
        opt_exprs_model(a + b) == opt_exprs_model(a) + opt_exprs_model(b),
    decreases b.len(),
{
    if b.len() == 0 {
        assert(a + b =~= a);
        assert(opt_exprs_model(a) + opt_exprs_model(b) =~= opt_exprs_model(a));
    } else {
        lemma_opt_exprs_concat(a, b.drop_last());
        assert((a + b).drop_last() =~= a + b.drop_last());
        assert(opt_exprs_model(a) + opt_exprs_model(b) =~= (opt_exprs_model(a) + opt_exprs_model(b.drop_last())).push(opt_expr_model(b.last())));
    }
}

fn opt_exprs_vec(exprs: Vec<ExprKind>) -> (r: Vec<ExprKind>)
    ensures
        exprs_model(r@) == opt_node_model(exprs_model(exprs@)),
    decreases exprs_model(exprs@), 2int,
{
    let ghost orig = exprs_model(exprs@);
    let node = Node(exprs);
    let (node, rewritten) = match opt_set_value(&node) {
        Some(optimized) => (optimized, true),
        None => (node, false),
    };
    let ghost model = exprs_model(node.0@);
    proof {
        lemma_exprs_model_len(exprs@);
        if rewritten {
            let m = set_value_rule(orig)->0;
            assert(m == seq![m[0]] + orig.skip(3));
        }
    }
    let items = inner_exprs(node);
    let mut out: Vec<ExprKind> = Vec::new();
    let mut rest = reversed(items);
    proof {
        lemma_exprs_model_len(items@);
        assert(model.take(0) =~= Seq::<ExprModel>::empty());
    }
    let n = rest.len();
    let mut i: usize = 0;
    while i < n
        invariant
            orig == exprs_model(exprs@),
            n == items@.len(),
            model == exprs_model(items@),
            model.len() == n,
            !rewritten ==> model == orig,
            rewritten ==> model == seq![model[0]] + orig.skip(3) && model[0] is Instructions && orig.len() >= 3,
            i <= n,
            rest@.len() == n - i,
            forall|k: int| 0 <= k < n - i ==> #[trigger] rest@[k] == items@[n - 1 - k],
            exprs_model(out@) == opt_exprs_model(model.take(i as int)),
        decreases n - i,
    {
        let e = rest.pop().unwrap();
        proof {
            assert(e == items@[i as int]);
            lemma_exprs_model_index(items@, i as int);
            assert(model.take(i + 1).drop_last() =~= model.take(i as int));
            assert(model.take(i + 1).last() == model[i as int]);
        }
        let ghost eg = e;
        let o = match e {
            ExprKind::Instructions(v) => {
                assert(opt_expr_model(expr_model(eg)) == expr_model(eg));
                ExprKind::Instructions(v)
            },
            ExprKind::While(w) => {
                proof {
                    assert(expr_model(ExprKind::While(w)) == expr_model(eg));
                    assert(expr_model(eg) == model[i as int]);
                    if rewritten {
                        assert(i >= 1);
                        assert(model[i as int] == orig[i + 2]);
                        assert(decreases_to!(orig => orig[i + 2]));
                    } else {
                        assert(decreases_to!(orig => orig[i as int]));
                    }
                }
                opt_expr_owned(ExprKind::While(w))
            },
        };
        proof { lemma_exprs_model_push(out@, o); }
        out.push(o);
        i = i + 1;
    }
    proof {
        assert(model.take(n as int) =~= model);
        if rewritten {
            lemma_opt_exprs_concat(seq![model[0]], orig.skip(3));
            assert(seq![model[0]].drop_last() =~= Seq::<ExprModel>::empty());
            assert(seq![model[0]].last() == model[0]);
            assert(opt_expr_model(model[0]) == model[0]);
            assert(opt_exprs_model(Seq::<ExprModel>::empty()) == Seq::<ExprModel>::empty());
            assert(opt_exprs_model(seq![model[0]]) == opt_exprs_model(Seq::<ExprModel>::empty()).push(model[0]));
            assert(opt_exprs_model(seq![model[0]]) =~= seq![model[0]]);
        }
    }
    out
}

/// Rewrites the node and every node inside it.
pub fn optimize(root_node: Node) -> (r: Node)
    ensures
        exprs_model(r.0@) == opt_node_model(exprs_model(root_node.0@)),
{
    Node(opt_exprs_vec(inner_exprs(root_node)))
}

} // verus!
