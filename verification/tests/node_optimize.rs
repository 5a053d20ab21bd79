use bf::node_optimize::{opt_move_add, opt_set_value, opt_zeroset, optimize};
use bf::optimize::merge::MergeOptimizer;
use bf::optimize::Optimizer;
use bf::parse::{ExprKind, Node};
use bf::token::Instruction;

/// The node of a source with each run's repeated commands counted, at every depth.
fn node(source: &str) -> Node {
    fn merged(node: Node) -> Node {
        Node(
            node.0
                .into_iter()
                .map(|expr| match expr {
                    ExprKind::Instructions(_) => MergeOptimizer.optimize_expr(&expr).unwrap(),
                    ExprKind::While(inner) => ExprKind::While(merged(inner)),
                })
                .collect(),
        )
    }
    merged(Node::from_source(source).unwrap())
}

#[test]
fn optimize_test_opt_zeroset() {
    fn helper(source: &str, assert_expr: Option<ExprKind>) {
        let root_node = node(source);
        if let [expr] = root_node.0.as_slice() {
            let optimized_expr = opt_zeroset(expr);
            assert_eq!(optimized_expr, assert_expr);
        } else {
            panic!("the source must hold a single loop")
        }
    }

    helper("[-]", Some(ExprKind::Instructions(vec![Instruction::SetValue(0, 0)])));
    helper("[>]", None);
}

#[test]
fn optimize_test_opt_set_value() {
    fn helper(source: &str, assert_node: Option<Node>) {
        let root_node = node(source);

        let optimized_node = opt_set_value(&root_node);
        assert_eq!(optimized_node, assert_node);
    }
    helper(
        ">++++++++++[->++++++++++<]>",
        Some(Node(vec![ExprKind::Instructions(vec![
            Instruction::PtrIncrement(1),
            Instruction::SetValue(1, 100),
            Instruction::PtrIncrement(1),
        ])])),
    );
    helper(
        ">++[->+++<]>",
        Some(Node(vec![ExprKind::Instructions(vec![
            Instruction::PtrIncrement(1),
            Instruction::SetValue(1, 6),
            Instruction::PtrIncrement(1),
        ])])),
    );

    helper("++++++++++[->+++++++++<<]>", None);
}

#[test]
fn optimize_test_opt_move_add() {
    fn helper(source: &str, assert_expr: Option<ExprKind>) {
        let root_node = node(source);
        if let [expr] = root_node.0.as_slice() {
            let optimized_expr = opt_move_add(expr);
            assert_eq!(optimized_expr, assert_expr);
        } else {
            panic!("the source must hold a single loop")
        }
    }

    helper(
        "[->+<]",
        Some(ExprKind::Instructions(vec![Instruction::AddTo(1), Instruction::SetValue(0, 0)])),
    );
    helper(
        "[->>>>>>>>>>+<<<<<<<<<<]",
        Some(ExprKind::Instructions(vec![Instruction::AddTo(10), Instruction::SetValue(0, 0)])),
    );

    helper("[->+<<]", None);
}

#[test]
fn node_optimize_rewrites_inside_loops() {
    let optimized = optimize(node("+[[-]>[->+<]]"));
    assert_eq!(
        optimized,
        Node(vec![
            ExprKind::Instructions(vec![Instruction::Add(1)]),
            ExprKind::While(Node(vec![
                ExprKind::Instructions(vec![Instruction::SetValue(0, 0)]),
                ExprKind::Instructions(vec![Instruction::PtrIncrement(1)]),
                ExprKind::Instructions(vec![Instruction::AddTo(1), Instruction::SetValue(0, 0)]),
            ])),
        ])
    );
}
