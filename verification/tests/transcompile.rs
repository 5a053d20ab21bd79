use bf::instruction::{Instruction, Value};
use bf::parse::{Nod, Node};
use bf::transcompile::to_c2;

const HEADER: &str = "#include <stdio.h>\n#include <stdint.h>\nint main(void){uint8_t mem[30000]={0};uint8_t* ptr = mem;";

fn ins(i: Instruction) -> Nod {
    Nod::Instruction(i)
}

#[test]
fn to_c2_writes_moves_changes_and_loops() {
    let nodes = vec![
        ins(Instruction::PtrIncrement(2)),
        ins(Instruction::Add(1, Value::Const(3))),
        Nod::Loop(vec![ins(Instruction::Sub(0, Value::Const(1))), ins(Instruction::Output(0, 2))]),
        ins(Instruction::PtrDecrement(1)),
    ];
    let expected = format!(
        "{HEADER}ptr+=2;*(ptr+1)+=3;while(*ptr){{*(ptr+0)-=1;putchar(*(ptr+0));putchar(*(ptr+0));}}ptr-=1;}}"
    );
    assert_eq!(to_c2(&nodes), expected);
}

#[test]
fn to_c2_writes_transfers_and_clears() {
    let nodes = vec![
        ins(Instruction::Add(1, Value::Memory(-1))),
        ins(Instruction::Sub(2, Value::Memory(0))),
        ins(Instruction::MulAdd(2, 0, 3)),
        ins(Instruction::MulSub(-2, -1, 4)),
        ins(Instruction::SetValue(0, Value::Const(0))),
        ins(Instruction::SetValue(3, Value::Const(0))),
        ins(Instruction::Input(1, 1)),
    ];
    let expected = format!(
        "{HEADER}if(*(ptr+-1)!=0){{*(ptr+1)+=*(ptr+-1);}}*(ptr+2)-=ptr[0];*(ptr+2)+=3*ptr[0];\
         if(*(ptr+-1)!=0){{*(ptr+-2)-=4**(ptr+-1);}}*ptr=0;*(ptr+3)=0;*(ptr+1)=getchar();}}"
    );
    assert_eq!(to_c2(&nodes), expected);
}

#[test]
fn to_c2_of_an_empty_program() {
    assert_eq!(to_c2(&Vec::new()), format!("{HEADER}}}"));
}

#[test]
fn node_to_string_writes_counts() {
    let node = Node::from_source("++[->+<]").unwrap();
    assert_eq!(node.to_string(), "1+1+[1-1>1+1<]");
}
