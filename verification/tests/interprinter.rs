use bf::interprinter::{InterPrinter, Memory};
use bf::optimize::optimize;
use bf::parse::{tokenize, Nod, Nods};

const HELLO_WORLD: &str = ">+++++++++[<++++++++>-]<.>+++++++[<++++>-]<+.+++++++..+++.[-]>++++++++[<++++>-]<.>+++++++++++[<+++++>-]<.>++++++++[<+++>-]<.+++.------.--------.[-]>++++++++[<++++>-]<+.[-]++++++++++.";

fn node_from_source(source: &str) -> Nods {
    let tokens = tokenize(source);
    Nod::from_tokens(tokens).unwrap()
}

fn node_from_source_optimized(source: &str) -> Nods {
    let tokens = tokenize(source);
    let nodes = Nod::from_tokens(tokens).unwrap();
    optimize(&nodes)
}

fn run_to_end(root_node: &Nods) -> Vec<u8> {
    let mut interprinter = InterPrinter::builder()
        .root_node(root_node)
        .input(Vec::new())
        .output(Vec::new())
        .build();
    while interprinter.next().is_some() {}
    interprinter.output().to_vec()
}

#[test]
fn interprinter_test_memory_extend() {
    {
        let mut memory = Memory::new(Vec::new());
        memory.get(0);

        assert!(!memory.inner().is_empty());
    }

    {
        let mut memory = Memory::new(Vec::new());
        memory.get_mut(0);

        assert!(!memory.inner().is_empty());
    }
}

#[test]
fn test_hello_world_interprinter() {
    let root_node = node_from_source(HELLO_WORLD);

    let output = String::from_utf8(run_to_end(&root_node)).unwrap();
    assert_eq!(output, "Hello World!\n");
}

#[test]
fn interprinter_reports_a_negative_pointer() {
    let root_node = node_from_source("<");
    let mut interprinter = InterPrinter::builder()
        .root_node(&root_node)
        .input(Vec::new())
        .output(Vec::new())
        .build();
    assert!(matches!(interprinter.next(), Some(Err(bf::interprinter::Error::NegativePointer(-1)))));
}

#[test]
fn interprinter_reads_its_input() {
    let root_node = node_from_source(",+.");
    let mut interprinter = InterPrinter::builder()
        .root_node(&root_node)
        .input(vec![b'a'])
        .output(Vec::new())
        .build();
    while interprinter.next().is_some() {}
    assert_eq!(interprinter.output(), b"b");
}

#[test]
fn test_optimized_hello_world_interprinter() {
    let root_node = node_from_source_optimized(HELLO_WORLD);

    let output = String::from_utf8(run_to_end(&root_node)).unwrap();
    assert_eq!(output, "Hello World!\n");
}

#[test]
fn merged_nodes_run_alike() {
    for source in ["+++--->>><<+-.", "++++++[>++++++++<-]>+.<+++[>+<-]>.", HELLO_WORLD] {
        let nodes = node_from_source(source);
        let merged = bf::optimize::merge_instruction(node_from_source(source));
        assert_eq!(run_to_end(&merged), run_to_end(&nodes), "{source}");
    }
}

#[test]
fn interprinter_stays_put_after_an_error() {
    let root_node = node_from_source("<");
    let mut interprinter = InterPrinter::builder()
        .root_node(&root_node)
        .input(Vec::new())
        .output(Vec::new())
        .build();
    assert!(matches!(interprinter.next(), Some(Err(bf::interprinter::Error::NegativePointer(-1)))));
    assert_eq!(interprinter.pointer(), 0);
    assert_eq!(interprinter.now(), 0);
    assert!(matches!(interprinter.next(), Some(Err(bf::interprinter::Error::NegativePointer(-1)))));
}

#[test]
fn interprinter_stops_at_the_end_of_its_program() {
    let root_node = node_from_source("+[-]>+[->+<]");
    let mut interprinter = InterPrinter::builder()
        .root_node(&root_node)
        .input(Vec::new())
        .output(Vec::new())
        .build();
    while let Some(step) = interprinter.next() {
        step.unwrap();
    }
    assert_eq!(interprinter.now(), 8 + 2 * 2);
}

#[test]
fn optimized_nodes_run_alike() {
    for source in [
        "+++--->>><<+-.",
        "++++++[>++++++++<-]>+.<+++[>+<-]>.",
        "++++[>+++++<-]>[<+++>>++<-]<.>>.",
        "+++++[>+>++>+++<<<-]>.>.>.",
        HELLO_WORLD,
    ] {
        let nodes = node_from_source(source);
        let optimized = node_from_source_optimized(source);
        assert_eq!(run_to_end(&optimized), run_to_end(&nodes), "{source}");
    }
}

#[test]
fn offset_pass_groups_writes_of_one_cell() {
    let source = "+++++.>++.<.";
    assert_eq!(run_to_end(&node_from_source(source)), vec![5, 2, 5]);
    assert_eq!(run_to_end(&node_from_source_optimized(source)), vec![5, 5, 2]);
}

#[test]
fn offset_pass_converts_up_counting_loops_as_down_counting() {
    let source = "+++[+>+<]>.";
    assert_eq!(run_to_end(&node_from_source(source)), vec![253]);
    assert_eq!(run_to_end(&node_from_source_optimized(source)), vec![3]);
}

#[test]
fn interprinter_jumps_past_a_loop_on_zero_and_ends_at_the_end() {
    let root_node = node_from_source("[+]");
    let mut interprinter = InterPrinter::builder()
        .root_node(&root_node)
        .input(Vec::new())
        .output(Vec::new())
        .build();
    assert_eq!(interprinter.now(), 0);
    assert!(matches!(interprinter.next(), Some(Ok(()))));
    assert_eq!(interprinter.now(), 3);
    assert!(interprinter.next().is_none());
    assert_eq!(interprinter.now(), 3);
}

#[test]
fn interprinter_loop_end_goes_back_to_its_begin() {
    let root_node = node_from_source("+[-]");
    let mut interprinter = InterPrinter::builder()
        .root_node(&root_node)
        .input(Vec::new())
        .output(Vec::new())
        .build();
    let mut pcs = vec![interprinter.now()];
    while interprinter.next().is_some() {
        pcs.push(interprinter.now());
    }
    assert_eq!(pcs, vec![0, 1, 2, 3, 1, 4]);
}

#[test]
fn parsed_programs_are_collectable() {
    for source in [HELLO_WORLD, "+[->+<]>.,", "[[[]]]"] {
        assert!(bf::optimize::is_collectable(&node_from_source(source)), "{source}");
    }
}
