use bf::parse::Ast;
use bf::interpreter::InterPreter;
use bf::ir::{Block, BlockItem, Op};
use bf::opt::{
    clear, if_opt, merge, mul, offset_opt, optimize, optimize_for_interpreter, to_not_negative_offset, unwrap,
};
use bf::utils::bf_to_block;

/// Memory, pointer and output after running a block on a cleared memory.
fn outcome(block: &Block) -> (Vec<u8>, usize, Vec<u8>) {
    let mut interpreter = InterPreter::builder()
        .memory(vec![0u8; 64])
        .input(Vec::new())
        .output(Vec::new())
        .root_node(block)
        .build();
    interpreter.run().unwrap();
    (interpreter.memory().to_vec(), interpreter.pointer(), interpreter.output().to_vec())
}

const PROGRAMS: [&str; 8] = [
    "+++--->>><<+-.",
    "+++[-]>++[+]>+++++[[[-]]]<.",
    "+++[->++>+++<<]>>.<.",
    "++[>+<[-]]>.",
    "+>+>+<<[->>+<<]>>.",
    ">>>>+<<-<.>>>.",
    "+>+>+<<[>]>+.",
    "++++++[>++++++++<-]>+.[-]++[>[-]+++<-]>.",
];

#[test]
fn merge_keeps_behaviour() {
    for source in PROGRAMS {
        let block = bf_to_block(source).unwrap();
        assert_eq!(outcome(&merge(&block, true)), outcome(&block), "{source}");
        assert_eq!(outcome(&merge(&block, false)), outcome(&block), "{source}");
    }
}

#[test]
fn loop_rewrites_keep_behaviour() {
    for source in PROGRAMS {
        let block = bf_to_block(source).unwrap();
        let expected = outcome(&block);

        let mut cleared = bf_to_block(source).unwrap();
        clear(&mut cleared);
        assert_eq!(outcome(&cleared), expected, "{source}");

        let mut unwrapped = bf_to_block(source).unwrap();
        unwrap(&mut unwrapped);
        assert_eq!(outcome(&unwrapped), expected, "{source}");

        let mut multiplied = bf_to_block(source).unwrap();
        clear(&mut multiplied);
        mul(&mut multiplied);
        assert_eq!(outcome(&multiplied), expected, "{source}");

        let mut conditional = bf_to_block(source).unwrap();
        clear(&mut conditional);
        if_opt(&mut conditional);
        assert_eq!(outcome(&conditional), expected, "{source}");

        let mut scanning = bf_to_block(source).unwrap();
        optimize_for_interpreter(&mut scanning);
        assert_eq!(outcome(&scanning), expected, "{source}");
    }
}

#[test]
fn offset_passes_keep_behaviour() {
    for source in PROGRAMS {
        let block = bf_to_block(source).unwrap();
        let expected = outcome(&block);
        let offsets = offset_opt(&block);
        assert_eq!(outcome(&offsets), expected, "{source}");
        let lowered = to_not_negative_offset(&offsets);
        assert_eq!(outcome(&lowered), expected, "{source}");
    }
}

#[test]
fn optimize_keeps_behaviour() {
    for source in PROGRAMS {
        let block = bf_to_block(source).unwrap();
        let expected = outcome(&block);
        assert_eq!(outcome(&optimize(&block, true, false)), expected, "{source}");
        assert_eq!(outcome(&optimize(&block, true, true)), expected, "{source}");
    }
}

#[test]
fn multiplication_loop_becomes_mul_operations() {
    let mut block = bf_to_block("[->++>+++<<]").unwrap();
    mul(&mut block);
    let expected = Block::from_items(vec![BlockItem::If(Block::from_items(vec![
        BlockItem::Op(Op::Mul(1, 2, 0)),
        BlockItem::Op(Op::Mul(2, 3, 0)),
        BlockItem::Op(Op::Assign(0, 0)),
    ]))]);
    assert_eq!(block, expected);
}

#[test]
fn loop_ending_in_a_clear_becomes_a_conditional() {
    let mut block = bf_to_block("[>+<[-]]").unwrap();
    clear(&mut block);
    if_opt(&mut block);
    assert!(matches!(block.items[0], BlockItem::If(_)));
}

#[test]
fn interpreter_keeps_its_pointer_when_a_move_fails() {
    let block = Block::from_items(vec![BlockItem::Op(Op::MovePtr(3)), BlockItem::Op(Op::MovePtr(-1))]);
    let mut it = InterPreter::builder().root_node(&block).input(Vec::new()).output(Vec::new()).memory(vec![0u8; 4]).build();
    assert!(matches!(it.run(), Ok(2)));
    assert_eq!(it.pointer(), 2);

    let block = Block::from_items(vec![BlockItem::Op(Op::MovePtr(-1))]);
    let mut it = InterPreter::builder().root_node(&block).input(Vec::new()).output(Vec::new()).memory(vec![0u8; 4]).build();
    assert!(matches!(it.run(), Err(bf::interpreter::Error::NegativePointer(-1))));
    assert_eq!(it.pointer(), 0);
}

#[test]
fn from_ast_drops_invalid_commands() {
    let ast = vec![Ast::PtrInc, Ast::Inc, Ast::Loop(vec![Ast::Dec, Ast::PtrDec]), Ast::Write, Ast::Read, Ast::_Invalid];
    let expected = Block::from_items(vec![
        BlockItem::Op(Op::MovePtr(1)),
        BlockItem::Op(Op::Add(1, 0)),
        BlockItem::Loop(Block::from_items(vec![BlockItem::Op(Op::Add(-1, 0)), BlockItem::Op(Op::MovePtr(-1))])),
        BlockItem::Op(Op::Out(0)),
        BlockItem::Op(Op::Input(0)),
    ]);
    assert_eq!(Block::from_ast(&ast), expected);
}
