use bf::instruction::{Instruction, Value};
use bf::optimize::{merge_instruction, offset_opt, SimplifiedNodes};
use bf::parse::{tokenize, Nod, Nods};

fn ins(i: Instruction) -> Nod {
    Nod::Instruction(i)
}

fn add(offset: isize, v: u8) -> Nod {
    ins(Instruction::Add(offset, Value::Const(v)))
}

fn sub(offset: isize, v: u8) -> Nod {
    ins(Instruction::Sub(offset, Value::Const(v)))
}

fn zero_set() -> Nod {
    ins(Instruction::SetValue(0, Value::Const(0)))
}

fn offset_opt_of(input: &str) -> Nods {
    let tokens = tokenize(input);
    let nodes = Nod::from_tokens(tokens).unwrap();
    offset_opt(&nodes)
}

#[test]
fn test_merge_instruction() {
    let nodes = vec![
        add(0, 1),
        sub(0, 1),
        ins(Instruction::PtrIncrement(1)),
        ins(Instruction::PtrDecrement(1)),
        add(0, 1),
    ];
    assert_eq!(merge_instruction(nodes), vec![add(0, 1)]);
}

#[test]
fn offset_opt_clears_a_cell() {
    assert_eq!(offset_opt_of("[-]"), vec![zero_set()]);
    assert_eq!(offset_opt_of("[+]"), vec![zero_set()]);
    assert_eq!(offset_opt_of("[++]"), vec![Nod::Loop(vec![add(0, 2)])]);
}

#[test]
fn offset_opt_turns_counting_loops_into_multiplications() {
    assert_eq!(
        offset_opt_of("[->>>+<<<]"),
        vec![ins(Instruction::Add(3, Value::Memory(0))), zero_set()]
    );
    assert_eq!(
        offset_opt_of("[<<<+>>>-]"),
        vec![ins(Instruction::Add(-3, Value::Memory(0))), zero_set()]
    );
    assert_eq!(
        offset_opt_of("[-<<<++>>>]"),
        vec![ins(Instruction::MulAdd(-3, 0, 2)), zero_set()]
    );
    assert_eq!(
        offset_opt_of("[-<<<-->>>]"),
        vec![ins(Instruction::MulSub(-3, 0, 2)), zero_set()]
    );
    assert_eq!(
        offset_opt_of("[->+>+>++>+++<<<<]"),
        vec![
            ins(Instruction::Add(1, Value::Memory(0))),
            ins(Instruction::Add(2, Value::Memory(0))),
            ins(Instruction::MulAdd(3, 0, 2)),
            ins(Instruction::MulAdd(4, 0, 3)),
            zero_set(),
        ]
    );
}

#[test]
fn offset_opt_keeps_runs_in_order() {
    assert_eq!(offset_opt_of(""), Vec::<Nod>::new());
    assert_eq!(offset_opt_of("+++"), vec![add(0, 3)]);
    assert_eq!(offset_opt_of("+++---"), Vec::<Nod>::new());
    assert_eq!(offset_opt_of(">+++<-"), vec![add(1, 3), sub(0, 1)]);
    assert_eq!(offset_opt_of(">+++"), vec![add(1, 3), ins(Instruction::PtrIncrement(1))]);
    assert_eq!(offset_opt_of("->+<"), vec![sub(0, 1), add(1, 1)]);
    assert_eq!(
        offset_opt_of("+++>-<[->>>-<<<]"),
        vec![add(0, 3), sub(1, 1), ins(Instruction::Sub(3, Value::Memory(0))), zero_set()]
    );
    assert_eq!(
        offset_opt_of("[->>>.<<<]"),
        vec![Nod::Loop(vec![sub(0, 1), ins(Instruction::Output(3, 1))])]
    );
    assert_eq!(
        offset_opt_of("[[[]]]"),
        vec![Nod::Loop(vec![Nod::Loop(vec![Nod::Loop(vec![])])])]
    );
}

#[test]
fn test_simplified_nodes() {
    let input = vec![add(0, 1), ins(Instruction::PtrIncrement(1)), sub(0, 1), add(2, 2)];
    let expected = vec![add(0, 1), sub(1, 1), add(3, 2), ins(Instruction::PtrIncrement(1))];

    let mut simplified_nodes = SimplifiedNodes::new();
    for node in input {
        simplified_nodes.push_back(node);
    }

    assert_eq!(simplified_nodes.into_nodes(), expected);
}

#[test]
fn offset_opt_moves_counters_either_way() {
    let add_to = |o: isize| ins(Instruction::Add(o, Value::Memory(0)));
    let sub_to = |o: isize| ins(Instruction::Sub(o, Value::Memory(0)));
    assert_eq!(offset_opt_of("[>>>+<<<-]"), vec![add_to(3), zero_set()]);
    assert_eq!(offset_opt_of("[-<<<+>>>]"), vec![add_to(-3), zero_set()]);
    assert_eq!(offset_opt_of("[->>>-<<<]"), vec![sub_to(3), zero_set()]);
    assert_eq!(offset_opt_of("[>>>-<<<-]"), vec![sub_to(3), zero_set()]);
    assert_eq!(offset_opt_of("[-<<<->>>]"), vec![sub_to(-3), zero_set()]);
    assert_eq!(offset_opt_of("[<<<->>>-]"), vec![sub_to(-3), zero_set()]);
    assert_eq!(offset_opt_of("[>>>->+<<<<-]"), vec![sub_to(3), add_to(4), zero_set()]);
    assert_eq!(
        offset_opt_of("+++[>>>[-][[->+<]]<<<]"),
        vec![
            add(0, 3),
            Nod::Loop(vec![
                ins(Instruction::PtrIncrement(3)),
                zero_set(),
                Nod::Loop(vec![add_to(1), zero_set()]),
                ins(Instruction::PtrDecrement(3)),
            ]),
        ]
    );
}
