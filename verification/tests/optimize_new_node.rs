use bf::instruction::{Instruction, Value};
use bf::optimize_new_node::{
    add_opt, copy_opt, loop_opt, merge_instruction, offset_opt, optimize, sub_add_opt, sub_opt, zeroset_opt, Instructions,
};
use bf::parse::{tokenize, Nod, Nods};

fn ins(i: Instruction) -> Nod {
    Nod::Instruction(i)
}

fn add(offset: isize, v: u8) -> Nod {
    ins(Instruction::Add(offset, Value::Const(v)))
}

fn sub(offset: isize, v: u8) -> Nod {
    ins(Instruction::Sub(offset, Value::Const(v)))
}

fn nodes(source: &str) -> Nods {
    Nod::from_tokens(tokenize(source)).unwrap()
}

/// The single loop of a source, with its pointer moves counted.
fn counted_loop(source: &str) -> Nod {
    let mut all = nodes(source);
    assert_eq!(all.len(), 1);
    match all.pop().unwrap() {
        Nod::Loop(body) => Nod::Loop(merge_instruction(body)),
        other => other,
    }
}

#[test]
fn zeroset_opt_clears_the_stepped_cell() {
    assert_eq!(zeroset_opt(&counted_loop("[-]")), Some(vec![ins(Instruction::SetValue(0, Value::Const(0)))]));
    assert_eq!(zeroset_opt(&Nod::Loop(vec![add(2, 1)])), Some(vec![ins(Instruction::SetValue(2, Value::Const(0)))]));
    assert_eq!(zeroset_opt(&counted_loop("[>]")), None);
    assert_eq!(zeroset_opt(&add(0, 1)), None);
}

#[test]
fn loop_opt_writes_multiplications() {
    let body = vec![sub(0, 1), add(1, 1), add(2, 3)];
    assert_eq!(
        loop_opt(&Nod::Loop(body)),
        Some(vec![
            ins(Instruction::MulAdd(2, 0, 3)),
            ins(Instruction::Add(1, Value::Memory(0))),
            ins(Instruction::SetValue(0, Value::Const(0))),
        ])
    );
    assert_eq!(loop_opt(&Nod::Loop(vec![sub(0, 1), ins(Instruction::PtrIncrement(1))])), None);
}

#[test]
fn add_and_sub_opt_move_the_counter() {
    assert_eq!(
        add_opt(&counted_loop("[->>>+<<<]")),
        Some(vec![ins(Instruction::Add(3, Value::Memory(0))), ins(Instruction::SetValue(0, Value::Const(0)))])
    );
    assert_eq!(
        add_opt(&counted_loop("[<<+>>-]")),
        Some(vec![ins(Instruction::Add(-2, Value::Memory(0))), ins(Instruction::SetValue(0, Value::Const(0)))])
    );
    assert_eq!(add_opt(&counted_loop("[->+<<]")), None);
    assert_eq!(
        sub_opt(&counted_loop("[->-<]")),
        Some(vec![ins(Instruction::Sub(1, Value::Memory(0))), ins(Instruction::SetValue(0, Value::Const(0)))])
    );
    assert_eq!(
        sub_opt(&counted_loop("[-<<<->>>]")),
        Some(vec![ins(Instruction::Sub(-3, Value::Memory(0))), ins(Instruction::SetValue(0, Value::Const(0)))])
    );
}

#[test]
fn copy_opt_copies_into_two_cells() {
    assert_eq!(
        copy_opt(&counted_loop("[->+>+<<]")),
        Some(vec![
            ins(Instruction::Add(1, Value::Memory(0))),
            ins(Instruction::Add(2, Value::Memory(0))),
            ins(Instruction::SetValue(0, Value::Const(0))),
        ])
    );
    assert_eq!(
        copy_opt(&counted_loop("[-<+<+>>]")),
        Some(vec![
            ins(Instruction::Add(-1, Value::Memory(0))),
            ins(Instruction::Add(-2, Value::Memory(0))),
            ins(Instruction::SetValue(0, Value::Const(0))),
        ])
    );
    assert_eq!(
        copy_opt(&counted_loop("[-<<+>+>]")),
        Some(vec![
            ins(Instruction::Add(-2, Value::Memory(0))),
            ins(Instruction::Add(-1, Value::Memory(0))),
            ins(Instruction::SetValue(0, Value::Const(0))),
        ])
    );
    assert_eq!(copy_opt(&counted_loop("[->+>+<]")), None);
}

#[test]
fn sub_add_opt_matches_its_shape() {
    assert_eq!(
        sub_add_opt(&counted_loop("[<->-<+>]")),
        Some(vec![
            ins(Instruction::Sub(-1, Value::Memory(0))),
            ins(Instruction::Add(-1, Value::Memory(0))),
            ins(Instruction::SetValue(0, Value::Const(0))),
        ])
    );
    assert_eq!(sub_add_opt(&counted_loop("[<->-<+>>]")), None);
}

#[test]
fn instructions_fuse_as_they_arrive() {
    let mut instructions = Instructions::from_ins(Instruction::Add(0, Value::Const(1)));
    instructions.push(Instruction::Add(0, Value::Const(2)));
    assert_eq!(instructions.inner(), &vec![Instruction::Add(0, Value::Const(3))]);
    instructions.push(Instruction::Sub(0, Value::Const(3)));
    assert!(instructions.inner().is_empty());
    let mut empty = Instructions::new();
    empty.push(Instruction::Output(0, 1));
    assert_eq!(empty.inner(), &vec![Instruction::Output(0, 1)]);
}

#[test]
fn offset_opt_writes_runs_offset_by_offset() {
    assert_eq!(
        offset_opt(&nodes(">+<-->+")),
        Some(vec![sub(0, 2), add(1, 2), ins(Instruction::PtrIncrement(1))])
    );
    assert_eq!(
        offset_opt(&nodes("+>.[-]<")),
        Some(vec![
            add(0, 1),
            ins(Instruction::Output(1, 1)),
            ins(Instruction::PtrIncrement(1)),
            Nod::Loop(vec![sub(0, 1)]),
            ins(Instruction::PtrDecrement(1)),
        ])
    );
    assert_eq!(optimize(nodes("++>")), vec![add(0, 2), ins(Instruction::PtrIncrement(1))]);
}

/// What the step interpreter writes running `prefix`, then `middle`, then `suffix`.
fn output_of(prefix: &str, middle: Nods, suffix: &str) -> Vec<u8> {
    let mut program = nodes(prefix);
    program.extend(middle);
    program.extend(nodes(suffix));
    let mut interprinter = bf::interprinter::InterPrinter::builder()
        .root_node(&program)
        .input(Vec::new())
        .output(Vec::new())
        .build();
    while let Some(step) = interprinter.next() {
        step.unwrap();
    }
    interprinter.output().to_vec()
}

#[test]
fn loop_rewrites_run_as_the_loops_do() {
    let cases: [(Nod, &str, fn(&Nod) -> Option<Nods>); 5] = [
        (counted_loop("[->>>+<<<]"), ">>>.<<<.", add_opt),
        (counted_loop("[->>-<<]"), ">>.<<.", sub_opt),
        (counted_loop("[->+>+<<]"), ">.>.<<.", copy_opt),
        (counted_loop("[-]"), ".", zeroset_opt),
        (Nod::Loop(vec![sub(0, 1), add(1, 1), add(2, 3)]), ">.>.<<.", loop_opt),
    ];
    for (looped, show, rule) in cases {
        let rewritten = rule(&looped).unwrap();
        let expected = output_of("+++++", vec![looped], show);
        assert_eq!(output_of("+++++", rewritten, show), expected, "{show}");
    }
}

#[test]
fn offset_opt_runs_as_the_nodes_do_where_writes_rise() {
    for source in ["+++[>++<-]>.>+.", "++>+++.>++++.<<[->+<]>.", "+.+.>+."] {
        let plain = nodes(source);
        let optimized = offset_opt(&plain).unwrap();
        assert_eq!(output_of("", optimized, ""), output_of("", plain, ""), "{source}");
    }
}

#[test]
fn offset_opt_writes_lower_cells_first_and_fused_writes_once() {
    let plain = nodes("+>++.<.");
    assert_eq!(output_of("", offset_opt(&plain).unwrap(), ""), vec![1, 2]);
    assert_eq!(output_of("", plain, ""), vec![2, 1]);
    let twice = nodes("+..");
    assert_eq!(output_of("", offset_opt(&twice).unwrap(), ""), vec![1]);
    assert_eq!(output_of("", twice, ""), vec![1, 1]);
}
