use bf::interpreter::{AutoExtendMemory, InterPreter, Memory};
use bf::ir::Block;
use bf::opt;
use bf::parse::parse;

const HELLO_WORLD: &str = ">+++++++++[<++++++++>-]<.>+++++++[<++++>-]<+.+++++++..+++.[-]>++++++++[<++++>-]<.>+++++++++++[<+++++>-]<.>++++++++[<+++>-]<.+++.------.--------.[-]>++++++++[<++++>-]<+.[-]++++++++++.";

fn block(source: &str) -> Block {
    let ast = parse(source).unwrap();
    Block::from_ast(&ast)
}

fn block_opt(source: &str) -> Block {
    let block = block(source);
    opt::optimize(&block, true, false)
}

#[test]
fn mod_test_memory_extend() {
    {
        let mut memory = AutoExtendMemory::new(Vec::new());
        memory.get(0);

        assert!(!memory.inner().is_empty());
    }

    {
        let mut memory = AutoExtendMemory::new(Vec::new());
        memory.make_room(0);

        assert!(!Memory::inner(&memory).is_empty());
    }
}

#[test]
fn test_hello_world_interpreter() {
    let block = block(HELLO_WORLD);

    let mut interpreter = InterPreter::builder()
        .root_node(&block)
        .input(Vec::new())
        .output(Vec::new())
        .memory(AutoExtendMemory::new(vec![0]))
        .build();
    interpreter.run().unwrap();

    let output = String::from_utf8(interpreter.output().to_vec()).unwrap();
    assert_eq!(output, "Hello World!\n");
}

#[test]
fn test_optimized_hello_world_interpreter() {
    let block = block_opt(HELLO_WORLD);

    let mut interpreter = InterPreter::builder()
        .root_node(&block)
        .input(Vec::new())
        .output(Vec::new())
        .memory(AutoExtendMemory::new(vec![0]))
        .build();
    interpreter.run().unwrap();

    let output = String::from_utf8(interpreter.output().to_vec()).unwrap();
    assert_eq!(output, "Hello World!\n");
}
