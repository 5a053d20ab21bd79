use bf::interpreter::InterPreter;
use bf::ir::{Block, BlockItem, Op};
use bf::opt::{clear, offset_opt, optimize, to_not_negative_offset, unwrap};
use bf::utils::bf_to_block;

fn run(block: &Block) -> (Vec<u8>, usize) {
    let mut interpreter = InterPreter::builder()
        .memory(vec![0u8; 300000])
        .input(Vec::new())
        .output(Vec::new())
        .root_node(block)
        .build();

    interpreter.run().unwrap();
    let memory = interpreter.memory().to_vec();
    let pointer = interpreter.pointer();
    (memory, pointer)
}

#[test]
fn same_state() {
    let block = bf_to_block("+++[>+++<-]>.").unwrap();
    let optimized_block = optimize(&block, true, false);
    assert_eq!(run(&block), run(&optimized_block));

    let block = bf_to_block("+++++++>>>>>>>>>--------<<<<<<<<<++++++").unwrap();
    let optimized_block = optimize(&block, true, false);
    assert_eq!(run(&block), run(&optimized_block));

    let block = bf_to_block("+[-]-[-]+[+]").unwrap();
    let optimized_block = optimize(&block, true, false);
    assert_eq!(run(&block), run(&optimized_block));

    let block = bf_to_block("+++[[[[[>+++<-]]]]]>.").unwrap();
    let optimized_block = optimize(&block, true, false);
    assert_eq!(run(&block), run(&optimized_block));

    let block = bf_to_block("+++++[[-]>++++++<]").unwrap();
    let optimized_block = optimize(&block, true, false);
    assert_eq!(run(&block), run(&optimized_block));

    let block = bf_to_block(">>>+++>>>+++[-<+++>]").unwrap();
    let optimized_block = optimize(&block, true, false);
    assert_eq!(run(&block), run(&optimized_block));
}

#[test]
fn test_offset_opt() {
    let mut optimized_block = bf_to_block("+>+>+>+[-]<<<->>>").unwrap();
    clear(&mut optimized_block);
    let optimized_block = offset_opt(&optimized_block);
    assert_eq!(
        &[
            BlockItem::Op(Op::Add(1, 0)),
            BlockItem::Op(Op::Add(1, 1)),
            BlockItem::Op(Op::Add(1, 2)),
            BlockItem::Op(Op::Add(1, 3)),
            BlockItem::Op(Op::Assign(0, 3)),
            BlockItem::Op(Op::Add(-1, 0)),
            BlockItem::Op(Op::ptr(3)),
        ],
        optimized_block.items.as_slice()
    );
}

#[test]
fn test_unwrap() {
    let mut block = bf_to_block("[[[[[-]]]]]").unwrap();
    unwrap(&mut block);

    assert_eq!(block, bf_to_block("[-]").unwrap());

    let mut block = bf_to_block("[[[+][[[-]]]]]").unwrap();
    unwrap(&mut block);

    assert_eq!(block, bf_to_block("[[+][-]]").unwrap());
}

#[test]
fn test_to_not_negative_offset() {
    let block = Block::from_items(vec![
        BlockItem::Op(Op::Add(1, -5)),
        BlockItem::Op(Op::ptr(-5)),
    ]);
    let block = to_not_negative_offset(&block);

    assert_eq!(
        block.items,
        vec![
            BlockItem::Op(Op::ptr(-5)),
            BlockItem::Op(Op::Add(1, 0)),
            BlockItem::Op(Op::ptr(-5)),
            BlockItem::Op(Op::ptr(5)),
        ]
    );
}
