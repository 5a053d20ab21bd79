use bf::optimize::copy::CopyOptimizer;
use bf::optimize::copy_rev::CopyRevOptimizer;
use bf::optimize::merge::MergeOptimizer;
use bf::optimize::move_add::MoveAddOptimizer;
use bf::optimize::move_add_rev::MoveAddRevOptimizer;
use bf::optimize::move_sub::MoveSubOptimizer;
use bf::optimize::move_sub_rev::MoveSubRevOptimizer;
use bf::optimize::mul_add::MulAddOptimizer;
use bf::optimize::mul_add_rev::MulAddRevOptimizer;
use bf::optimize::set_value::SetValueOptimizer;
use bf::optimize::sub_copy::SubCopyOptimizer;
use bf::optimize::zeroset::ZeroSetOptimizer;
use bf::optimize::Optimizer;
use bf::parse::{ExprKind, Node};
use bf::token::Instruction;

/// Every run of the node, at every depth, with its repeated commands fused.
fn merged(node: Node) -> Node {
    Node(
        node.0
            .into_iter()
            .map(|expr| match expr {
                ExprKind::Instructions(_) => MergeOptimizer.optimize_expr(&expr).unwrap(),
                ExprKind::While(inner) => ExprKind::While(merged(inner)),
            })
            .collect(),
    )
}

fn expr_helper(source: &str, expected: Option<ExprKind>, optimizer: impl Optimizer) {
    let root_node = merged(Node::from_source(source).unwrap());
    if let [expr] = root_node.0.as_slice() {
        let optimized = optimizer.optimize_expr(expr).or_else(|| optimizer.optimize_while(expr));
        assert_eq!(optimized, expected);
    } else {
        panic!("the source must hold a single loop");
    }
}

#[test]
fn test_opt_copy() {
    expr_helper(
        "[->+>+<<]",
        Some(ExprKind::Instructions(vec![Instruction::Copy(1), Instruction::Copy(2), Instruction::ZeroSet])),
        CopyOptimizer,
    );
    expr_helper("[->+>+<<<]", None, CopyOptimizer);

    expr_helper(
        "[->>+<+<]",
        Some(ExprKind::Instructions(vec![Instruction::Copy(2), Instruction::Copy(1), Instruction::ZeroSet])),
        CopyOptimizer,
    );
    expr_helper("[->>>+<+<]", None, CopyOptimizer);

    expr_helper(
        "[->>>+<+<+<]",
        Some(ExprKind::Instructions(vec![
            Instruction::Copy(3),
            Instruction::Copy(2),
            Instruction::Copy(1),
            Instruction::ZeroSet,
        ])),
        CopyOptimizer,
    );
    expr_helper("[->>>>+<+<+<]", None, CopyOptimizer);
}

#[test]
fn copy_rev_optimizer_matches_both_shapes() {
    expr_helper(
        "[-<+<+>>]",
        Some(ExprKind::Instructions(vec![Instruction::CopyRev(1), Instruction::CopyRev(2), Instruction::ZeroSet])),
        CopyRevOptimizer,
    );
    expr_helper(
        "[-<<+>+>]",
        Some(ExprKind::Instructions(vec![Instruction::CopyRev(2), Instruction::CopyRev(1), Instruction::ZeroSet])),
        CopyRevOptimizer,
    );
    expr_helper("[-<+<+>]", None, CopyRevOptimizer);
}

#[test]
fn move_add_test_opt_move_add() {
    expr_helper(
        "[->+<]",
        Some(ExprKind::Instructions(vec![Instruction::AddTo(1), Instruction::ZeroSet])),
        MoveAddOptimizer,
    );
    expr_helper(
        "[>+<-]",
        Some(ExprKind::Instructions(vec![Instruction::AddTo(1), Instruction::ZeroSet])),
        MoveAddOptimizer,
    );
    expr_helper(
        "[->>>>>>>>>>+<<<<<<<<<<]",
        Some(ExprKind::Instructions(vec![Instruction::AddTo(10), Instruction::ZeroSet])),
        MoveAddOptimizer,
    );

    expr_helper("[->+<<]", None, MoveAddOptimizer);
}

#[test]
fn move_add_rev_test_opt_move_add_rev() {
    expr_helper(
        "[-<+>]",
        Some(ExprKind::Instructions(vec![Instruction::AddToRev(1), Instruction::ZeroSet])),
        MoveAddRevOptimizer,
    );
    expr_helper(
        "[<+>-]",
        Some(ExprKind::Instructions(vec![Instruction::AddToRev(1), Instruction::ZeroSet])),
        MoveAddRevOptimizer,
    );
    expr_helper(
        "[-<<<<<<<<<<+>>>>>>>>>>]",
        Some(ExprKind::Instructions(vec![Instruction::AddToRev(10), Instruction::ZeroSet])),
        MoveAddRevOptimizer,
    );

    expr_helper("[->+<]", None, MoveAddRevOptimizer);
}

#[test]
fn test_opt_move_sub() {
    expr_helper(
        "[->-<]",
        Some(ExprKind::Instructions(vec![Instruction::SubTo(1), Instruction::ZeroSet])),
        MoveSubOptimizer,
    );
    expr_helper(
        "[->>>>>>>>>>-<<<<<<<<<<]",
        Some(ExprKind::Instructions(vec![Instruction::SubTo(10), Instruction::ZeroSet])),
        MoveSubOptimizer,
    );

    expr_helper("[->+<<]", None, MoveSubOptimizer);
}

#[test]
fn test_opt_move_sub_rev() {
    expr_helper(
        "[-<->]",
        Some(ExprKind::Instructions(vec![Instruction::MoveSubRev(1)])),
        MoveSubRevOptimizer,
    );
    expr_helper(
        "[-<<<<<<<<<<->>>>>>>>>>]",
        Some(ExprKind::Instructions(vec![Instruction::MoveSubRev(10)])),
        MoveSubRevOptimizer,
    );

    expr_helper("[->+<]", None, MoveSubRevOptimizer);
}

#[test]
fn test_mul_add() {
    expr_helper("[->+<]", None, MulAddOptimizer);
    expr_helper("[>+<-]", None, MulAddOptimizer);
    expr_helper(
        "[->>>+++++<<<]",
        Some(ExprKind::Instructions(vec![Instruction::MulAdd(3, 5), Instruction::ZeroSet])),
        MulAddOptimizer,
    );
    expr_helper("[->>>-----<<<]", None, MulAddOptimizer);
}

#[test]
fn mul_add_rev_test_opt_move_add_rev() {
    fn helper(source: &str, assert_expr: Option<ExprKind>) {
        let root_node = merged(Node::from_source(source).unwrap());

        if let [expr] = root_node.0.as_slice() {
            let optimized_expr = MulAddRevOptimizer.optimize_expr(expr);
            assert_eq!(optimized_expr, assert_expr);
        } else {
            panic!("the source must hold a single loop")
        }
    }

    helper("[<+++>-]", Some(ExprKind::Instructions(vec![Instruction::MulAddRev(1, 3)])));
    helper("[<<+++++>>-]", Some(ExprKind::Instructions(vec![Instruction::MulAddRev(2, 5)])));

    helper("[->+<<]", None);
}

#[test]
fn sub_copy_optimizer_matches_its_shapes() {
    expr_helper(
        "[-<-<+>>]",
        Some(ExprKind::Instructions(vec![Instruction::SubToRev(1), Instruction::CopyRev(2), Instruction::ZeroSet])),
        SubCopyOptimizer,
    );
    expr_helper(
        "[->-<<+>]",
        Some(ExprKind::Instructions(vec![Instruction::SubTo(1), Instruction::CopyRev(1), Instruction::ZeroSet])),
        SubCopyOptimizer,
    );
    expr_helper(
        "[<->-<+>]",
        Some(ExprKind::Instructions(vec![Instruction::SubToRev(1), Instruction::CopyRev(1), Instruction::ZeroSet])),
        SubCopyOptimizer,
    );
    expr_helper("[-<-<+>]", None, SubCopyOptimizer);
}

#[test]
fn zeroset_test_opt_zeroset() {
    expr_helper("[-]", Some(ExprKind::Instructions(vec![Instruction::ZeroSet])), ZeroSetOptimizer);
    expr_helper("[+]", Some(ExprKind::Instructions(vec![Instruction::ZeroSet])), ZeroSetOptimizer);
    expr_helper("[>]", None, ZeroSetOptimizer);
}

#[test]
fn set_value_test_opt_set_value() {
    fn helper(source: &str, assert_node: Option<Node>) {
        let root_node = merged(Node::from_source(source).unwrap());

        let optimized_node = SetValueOptimizer.optimize_node(&root_node);
        assert_eq!(optimized_node, assert_node);
    }
    helper(
        ">++++++++++[->++++++++++<]>",
        Some(Node(vec![ExprKind::Instructions(vec![
            Instruction::PtrIncrement(1),
            Instruction::SetValue(1, 100),
            Instruction::PtrIncrement(1),
        ])])),
    );
    helper(
        ">++[->+++<]>",
        Some(Node(vec![ExprKind::Instructions(vec![
            Instruction::PtrIncrement(1),
            Instruction::SetValue(1, 6),
            Instruction::PtrIncrement(1),
        ])])),
    );

    helper("++++++++++[->+++++++++<<]>", None);
}

#[test]
fn merge_optimizer_fuses_a_run() {
    let run = ExprKind::Instructions(vec![
        Instruction::Add(1),
        Instruction::Add(1),
        Instruction::Sub(1),
        Instruction::PtrIncrement(2),
        Instruction::PtrDecrement(3),
        Instruction::Output(1),
        Instruction::Output(2),
    ]);
    assert_eq!(
        MergeOptimizer.optimize_expr(&run),
        Some(ExprKind::Instructions(vec![
            Instruction::Add(1),
            Instruction::PtrDecrement(1),
            Instruction::Output(3),
        ]))
    );
    assert_eq!(MergeOptimizer.optimize_expr(&ExprKind::While(Node(vec![]))), None);
}
