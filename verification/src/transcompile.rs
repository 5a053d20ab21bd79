//! C source for an instruction tree: a byte array as memory and a pointer into it.

use vstd::prelude::*;
use crate::instruction::{Instruction, Value};
use crate::parse::{Nod, NodModel, Nods, nod_model, nods_model, lemma_nods_model_index, lemma_nods_model_len};
use crate::text::{decimal, decimal_int, push_decimal, push_decimal_signed};

verus! {

/// The C expression for the cell at `offset` from the pointer.
pub open spec fn c_cell(offset: isize) -> Seq<char> {
    "*(ptr+"@ + decimal_int(offset as int) + ")"@
}

/// `n` copies of a text, one after the other.
pub open spec fn repeated(s: Seq<char>, n: nat) -> Seq<char>
    decreases n,
{
    if n == 0 {
        Seq::empty()
    } else {
        repeated(s, (n - 1) as nat) + s
    }
}

/// Instructions that C code can be written for: every instruction but a store of a value
/// other than a constant zero.
pub open spec fn c_ready(i: Instruction) -> bool {
    match i {
        Instruction::SetValue(_, v) => v == Value::Const(0),
        _ => true,
    }
}

pub open spec fn nod_c_ready(n: NodModel) -> bool
    decreases n,
{
    match n {
        NodModel::Loop(body) => all_c_ready(body),
        NodModel::Instruction(i) => c_ready(i),
    }
}

pub open spec fn all_c_ready(ns: Seq<NodModel>) -> bool
    decreases ns,
{
    if ns.len() == 0 {
        true
    } else {
        all_c_ready(ns.drop_last()) && nod_c_ready(ns.last())
    }
}

/// A change of the cell at `to` by the cell at `offset` (`op` is `+` or `-`): a cell at or
/// after the pointer is read by index, one before it only when it is not zero.
pub open spec fn c_move(to: isize, offset: isize, op: Seq<char>) -> Seq<char> {
    if offset >= 0 {
        c_cell(to) + op + "=ptr["@ + decimal_int(offset as int) + "];"@
    } else {
        "if("@ + c_cell(offset) + "!=0){"@ + c_cell(to) + op + "="@ + c_cell(offset) + ";}"@
    }
}

/// A change of the cell at `to` by `value` times the cell at `offset`.
pub open spec fn c_mul(to: isize, offset: isize, value: u8, op: Seq<char>) -> Seq<char> {
    if offset >= 0 {
        c_cell(to) + op + "="@ + decimal(value as nat) + "*ptr["@ + decimal_int(offset as int) + "];"@
    } else {
        "if("@ + c_cell(offset) + "!=0){"@ + c_cell(to) + op + "="@ + decimal(value as nat) + "*"@ + c_cell(offset) + ";}"@
    }
}

/// The C statements of one instruction.
pub open spec fn c_instruction(i: Instruction) -> Seq<char> {
    match i {
        Instruction::PtrIncrement(n) => "ptr+="@ + decimal(n as nat) + ";"@,
        Instruction::PtrDecrement(n) => "ptr-="@ + decimal(n as nat) + ";"@,
        Instruction::Add(o, Value::Const(v)) => c_cell(o) + "+="@ + decimal(v as nat) + ";"@,
        Instruction::Add(to, Value::Memory(o)) => c_move(to, o, "+"@),
        Instruction::Sub(o, Value::Const(v)) => c_cell(o) + "-="@ + decimal(v as nat) + ";"@,
        Instruction::Sub(to, Value::Memory(o)) => c_move(to, o, "-"@),
        Instruction::Output(o, n) => repeated("putchar("@ + c_cell(o) + ");"@, n as nat),
        Instruction::Input(o, n) => repeated(c_cell(o) + "=getchar();"@, n as nat),
        Instruction::MulAdd(to, o, v) => c_mul(to, o, v, "+"@),
        Instruction::MulSub(to, o, v) => c_mul(to, o, v, "-"@),
        Instruction::SetValue(o, _) => if o == 0 { "*ptr=0;"@ } else { c_cell(o) + "=0;"@ },
    }
}

pub open spec fn c_nod(n: NodModel) -> Seq<char>
    decreases n,
{
    match n {
        NodModel::Loop(body) => "while(*ptr){"@ + c_nodes(body) + "}"@,
        NodModel::Instruction(i) => c_instruction(i),
    }
}

pub open spec fn c_nodes(ns: Seq<NodModel>) -> Seq<char>
    decreases ns,
{
    if ns.len() == 0 {
        Seq::empty()
    } else {
        c_nodes(ns.drop_last()) + c_nod(ns.last())
    }
}

proof fn lemma_all_c_ready_index(ns: Seq<NodModel>, k: int)
    requires
        all_c_ready(ns),
        0 <= k < ns.len(),
    ensures
        nod_c_ready(ns[k]),
    decreases ns.len(),
{
    if k < ns.len() - 1 {
        lemma_all_c_ready_index(ns.drop_last(), k);
    }
}

fn push_cell(s: &mut String, offset: isize)
    ensures
        final(s)@ == old(s)@ + c_cell(offset),
{
    s.append("*(ptr+");
    push_decimal_signed(s, offset as i64);
    s.append(")");
    assert(s@ =~= old(s)@ + c_cell(offset));
}

fn push_move(s: &mut String, to: isize, offset: isize, op: &str)
    ensures
        final(s)@ == old(s)@ + c_move(to, offset, op@),
{
    if offset >= 0 {
        push_cell(s, to);
        s.append(op);
        s.append("=ptr[");
        push_decimal_signed(s, offset as i64);
        s.append("];");
    } else {
        s.append("if(");
        push_cell(s, offset);
        s.append("!=0){");
        push_cell(s, to);
        s.append(op);
        s.append("=");
        push_cell(s, offset);
        s.append(";}");
    }
    assert(s@ =~= old(s)@ + c_move(to, offset, op@));
}

fn push_mul(s: &mut String, to: isize, offset: isize, value: u8, op: &str)
    ensures
        final(s)@ == old(s)@ + c_mul(to, offset, value, op@),
{
    if offset >= 0 {
        push_cell(s, to);
        s.append(op);
        s.append("=");
        push_decimal(s, value as u64);
        s.append("*ptr[");
        push_decimal_signed(s, offset as i64);
        s.append("];");
    } else {
        s.append("if(");
        push_cell(s, offset);
        s.append("!=0){");
        push_cell(s, to);
        s.append(op);
        s.append("=");
        push_decimal(s, value as u64);
        s.append("*");
        push_cell(s, offset);
        s.append(";}");
    }
    assert(s@ =~= old(s)@ + c_mul(to, offset, value, op@));
}

fn push_putchar(s: &mut String, offset: isize, repeat: usize)
    ensures
        final(s)@ == old(s)@ + repeated("putchar("@ + c_cell(offset) + ");"@, repeat as nat),
{
    let ghost start = s@;
    let ghost one = "putchar("@ + c_cell(offset) + ");"@;
    let mut k: usize = 0;
    assert(start + repeated(one, 0) =~= start);
    while k < repeat
        invariant
            k <= repeat,
            s@ == start + repeated(one, k as nat),
            one == "putchar("@ + c_cell(offset) + ");"@,
        decreases repeat - k,
    {
        s.append("putchar(");
        push_cell(s, offset);
        s.append(");");
        k = k + 1;
        assert(s@ =~= start + repeated(one, k as nat));
    }
}

fn push_getchar(s: &mut String, offset: isize, repeat: usize)
    ensures
        final(s)@ == old(s)@ + repeated(c_cell(offset) + "=getchar();"@, repeat as nat),
{
    let ghost start = s@;
    let ghost one = c_cell(offset) + "=getchar();"@;
    let mut k: usize = 0;
    assert(start + repeated(one, 0) =~= start);
    while k < repeat
        invariant
            k <= repeat,
            s@ == start + repeated(one, k as nat),
            one == c_cell(offset) + "=getchar();"@,
        decreases repeat - k,
    {
        push_cell(s, offset);
        s.append("=getchar();");
        k = k + 1;
        assert(s@ =~= start + repeated(one, k as nat));
    }
}

fn push_instruction(s: &mut String, instruction: Instruction)
    requires
        c_ready(instruction),
    ensures
        final(s)@ == old(s)@ + c_instruction(instruction),
{
    match instruction {
        Instruction::PtrIncrement(n) => {
            s.append("ptr+=");
            push_decimal(s, n as u64);
            s.append(";");
        },
        Instruction::PtrDecrement(n) => {
            s.append("ptr-=");
            push_decimal(s, n as u64);
            s.append(";");
        },
        Instruction::Add(o, Value::Const(v)) => {
            push_cell(s, o);
            s.append("+=");
            push_decimal(s, v as u64);
            s.append(";");
        },
        Instruction::Add(to, Value::Memory(o)) => push_move(s, to, o, "+"),
        Instruction::Sub(o, Value::Const(v)) => {
            push_cell(s, o);
            s.append("-=");
            push_decimal(s, v as u64);
            s.append(";");
        },
        Instruction::Sub(to, Value::Memory(o)) => push_move(s, to, o, "-"),
        Instruction::Output(o, n) => push_putchar(s, o, n),
        Instruction::Input(o, n) => push_getchar(s, o, n),
        Instruction::MulAdd(to, o, v) => push_mul(s, to, o, v, "+"),
        Instruction::MulSub(to, o, v) => push_mul(s, to, o, v, "-"),
        Instruction::SetValue(o, _) => {
            if o == 0 {
                s.append("*ptr=0;");
            } else {
                push_cell(s, o);
                s.append("=0;");
            }
        },
    }
    assert(s@ =~= old(s)@ + c_instruction(instruction));
}

fn push_nodes(s: &mut String, nodes: &Nods)
    requires
        all_c_ready(nods_model(nodes@)),
    ensures
        final(s)@ == old(s)@ + c_nodes(nods_model(nodes@)),
    decreases nods_model(nodes@),
{
    let ghost model = nods_model(nodes@);
    let ghost start = s@;
    proof {
        lemma_nods_model_len(nodes@);
        assert(model.take(0) =~= Seq::<NodModel>::empty());
        assert(start + c_nodes(model.take(0)) =~= start);
    }
    let mut i: usize = 0;
    while i < nodes.len()
        invariant
            model == nods_model(nodes@),
            model.len() == nodes@.len(),
            all_c_ready(model),
            i <= nodes@.len(),
            s@ == start + c_nodes(model.take(i as int)),
        decreases nodes@.len() - i,
    {
        proof {
            lemma_nods_model_index(nodes@, i as int);
            lemma_all_c_ready_index(model, i as int);
            assert(model.take(i + 1).drop_last() =~= model.take(i as int));
            assert(model.take(i + 1).last() == model[i as int]);
            assert(c_nodes(model.take(i + 1)) == c_nodes(model.take(i as int)) + c_nod(model[i as int]));
        }
        match &nodes[i] {
            Nod::Loop(loop_nodes) => {
                proof {
                    assert(decreases_to!(model => model[i as int]));
                }
                s.append("while(*ptr){");
                push_nodes(s, loop_nodes);
                s.append("}");
                assert(s@ =~= start + c_nodes(model.take(i + 1)));
            },
            Nod::Instruction(instruction) => {
                push_instruction(s, *instruction);
                assert(s@ =~= start + c_nodes(model.take(i + 1)));
            },
        }
        i = i + 1;
    }
    proof {
        assert(model.take(nodes@.len() as int) =~= model);
    }
}

/// The C text of nodes one after the other is their texts one after the other.
pub proof fn lemma_c_nodes_concat(a: Seq<NodModel>, b: Seq<NodModel>)
    ensures
        c_nodes(a + b) == c_nodes(a) + c_nodes(b),
    decreases b.len(),
{
    if b.len() == 0 {
        assert(a + b =~= a);
        assert(c_nodes(a) + Seq::<char>::empty() =~= c_nodes(a));
    } else {
        lemma_c_nodes_concat(a, b.drop_last());
        assert((a + b).drop_last() =~= a + b.drop_last());
        assert((a + b).last() == b.last());
        assert(c_nodes(a) + c_nodes(b.drop_last()) + c_nod(b.last()) =~= c_nodes(a) + (c_nodes(b.drop_last()) + c_nod(b.last())));
    }
}

proof fn lemma_c_single(n: NodModel)
    ensures
        c_nodes(seq![n]) == c_nod(n),
{
    let ns = seq![n];
    assert(ns.drop_last() =~= Seq::<NodModel>::empty());
    assert(c_nodes(Seq::<NodModel>::empty()) == Seq::<char>::empty());
    assert(c_nodes(ns) == c_nodes(ns.drop_last()) + c_nod(ns.last()));
    assert(c_nodes(ns) =~= c_nod(n));
}

/// The C statements written for the instructions that combine two cells: the cell `to`
/// changes by the cell `o` (times `v`), read by index `ptr[o]` when `o` is not below the
/// pointer, and through a test that the cell is not zero otherwise; a store of zero writes
/// zero into the cell it addresses; a loop runs its body while the current cell is not zero.
pub proof fn lemma_c_combined_statements(n: NodModel)
    ensures
        n matches NodModel::Instruction(Instruction::Add(to, Value::Memory(o))) ==> c_nodes(seq![n]) == if o >= 0 {
            "*(ptr+"@ + decimal_int(to as int) + ")"@ + "+"@ + "=ptr["@ + decimal_int(o as int) + "];"@
        } else {
            "if("@ + ("*(ptr+"@ + decimal_int(o as int) + ")"@) + "!=0){"@ + ("*(ptr+"@ + decimal_int(to as int) + ")"@)
                + "+"@ + "="@ + ("*(ptr+"@ + decimal_int(o as int) + ")"@) + ";}"@
        },
        n matches NodModel::Instruction(Instruction::Sub(to, Value::Memory(o))) ==> c_nodes(seq![n]) == if o >= 0 {
            "*(ptr+"@ + decimal_int(to as int) + ")"@ + "-"@ + "=ptr["@ + decimal_int(o as int) + "];"@
        } else {
            "if("@ + ("*(ptr+"@ + decimal_int(o as int) + ")"@) + "!=0){"@ + ("*(ptr+"@ + decimal_int(to as int) + ")"@)
                + "-"@ + "="@ + ("*(ptr+"@ + decimal_int(o as int) + ")"@) + ";}"@
        },
        n matches NodModel::Instruction(Instruction::MulAdd(to, o, v)) ==> c_nodes(seq![n]) == if o >= 0 {
            "*(ptr+"@ + decimal_int(to as int) + ")"@ + "+"@ + "="@ + decimal(v as nat) + "*ptr["@ + decimal_int(o as int) + "];"@
        } else {
            "if("@ + ("*(ptr+"@ + decimal_int(o as int) + ")"@) + "!=0){"@ + ("*(ptr+"@ + decimal_int(to as int) + ")"@)
                + "+"@ + "="@ + decimal(v as nat) + "*"@ + ("*(ptr+"@ + decimal_int(o as int) + ")"@) + ";}"@
        },
        n matches NodModel::Instruction(Instruction::MulSub(to, o, v)) ==> c_nodes(seq![n]) == if o >= 0 {
            "*(ptr+"@ + decimal_int(to as int) + ")"@ + "-"@ + "="@ + decimal(v as nat) + "*ptr["@ + decimal_int(o as int) + "];"@
        } else {
            "if("@ + ("*(ptr+"@ + decimal_int(o as int) + ")"@) + "!=0){"@ + ("*(ptr+"@ + decimal_int(to as int) + ")"@)
                + "-"@ + "="@ + decimal(v as nat) + "*"@ + ("*(ptr+"@ + decimal_int(o as int) + ")"@) + ";}"@
        },
        n matches NodModel::Instruction(Instruction::SetValue(o, _)) ==> c_nodes(seq![n]) == if o == 0 {
            "*ptr=0;"@
        } else {
            "*(ptr+"@ + decimal_int(o as int) + ")"@ + "=0;"@
        },
        n matches NodModel::Loop(body) ==> c_nodes(seq![n]) == "while(*ptr){"@ + c_nodes(body) + "}"@,
{
    lemma_c_single(n);
}

/// The C statements written for an instruction work on the cell it addresses, written as
/// `*(ptr+o)` with `o` its offset in decimal: a write of `n` bytes is `n` calls of
/// `putchar(*(ptr+o));`, a read of `n` bytes is `n` assignments `*(ptr+o)=getchar();`, and a
/// change by a constant `v` is `*(ptr+o)+=v;` or `*(ptr+o)-=v;`.
pub proof fn lemma_c_cell_statements(i: Instruction)
    ensures
        i matches Instruction::Output(o, n) ==> c_nodes(seq![NodModel::Instruction(i)])
            == repeated("putchar(*(ptr+"@ + decimal_int(o as int) + "));"@, n as nat),
        i matches Instruction::Input(o, n) ==> c_nodes(seq![NodModel::Instruction(i)])
            == repeated("*(ptr+"@ + decimal_int(o as int) + ")=getchar();"@, n as nat),
        i matches Instruction::Add(o, Value::Const(v)) ==> c_nodes(seq![NodModel::Instruction(i)])
            == "*(ptr+"@ + decimal_int(o as int) + ")+="@ + decimal(v as nat) + ";"@,
        i matches Instruction::Sub(o, Value::Const(v)) ==> c_nodes(seq![NodModel::Instruction(i)])
            == "*(ptr+"@ + decimal_int(o as int) + ")-="@ + decimal(v as nat) + ";"@,
        i matches Instruction::PtrIncrement(n) ==> c_nodes(seq![NodModel::Instruction(i)])
            == "ptr+="@ + decimal(n as nat) + ";"@,
        i matches Instruction::PtrDecrement(n) ==> c_nodes(seq![NodModel::Instruction(i)])
            == "ptr-="@ + decimal(n as nat) + ";"@,
{
    let ns = seq![NodModel::Instruction(i)];
    assert(ns.drop_last() =~= Seq::<NodModel>::empty());
    assert(c_nodes(Seq::<NodModel>::empty()) == Seq::<char>::empty());
    assert(c_nodes(ns) == c_nodes(ns.drop_last()) + c_nod(ns.last()));
    assert(c_nodes(ns) =~= c_instruction(i));
    reveal_strlit("putchar(");
    reveal_strlit("*(ptr+");
    reveal_strlit(")");
    reveal_strlit(");");
    reveal_strlit("putchar(*(ptr+");
    reveal_strlit("));");
    reveal_strlit("=getchar();");
    reveal_strlit(")=getchar();");
    reveal_strlit("+=");
    reveal_strlit(")+=");
    reveal_strlit("-=");
    reveal_strlit(")-=");
    match i {
        Instruction::Output(o, n) => {
            assert("putchar("@ + c_cell(o) + ");"@ =~= "putchar(*(ptr+"@ + decimal_int(o as int) + "));"@);
        },
        Instruction::Input(o, n) => {
            assert(c_cell(o) + "=getchar();"@ =~= "*(ptr+"@ + decimal_int(o as int) + ")=getchar();"@);
        },
        Instruction::Add(o, Value::Const(v)) => {
            assert(c_cell(o) + "+="@ + decimal(v as nat) + ";"@ =~= "*(ptr+"@ + decimal_int(o as int) + ")+="@ + decimal(v as nat) + ";"@);
        },
        Instruction::Sub(o, Value::Const(v)) => {
            assert(c_cell(o) + "-="@ + decimal(v as nat) + ";"@ =~= "*(ptr+"@ + decimal_int(o as int) + ")-="@ + decimal(v as nat) + ";"@);
        },
        _ => {},
    }
}

/// The C program of a tree: headers, a zeroed memory of 30000 cells and a pointer to its
/// start, then the statements of the tree.
pub open spec fn c_program(ns: Seq<NodModel>) -> Seq<char> {
    "#include <stdio.h>\n#include <stdint.h>\nint main(void){uint8_t mem[30000]={0};uint8_t* ptr = mem;"@
        + c_nodes(ns) + "}"@
}

pub fn to_c2(root_node: &Nods) -> (r: String)
    requires
        all_c_ready(nods_model(root_node@)),
    ensures
        r@ == c_program(nods_model(root_node@)),
{
    let mut a = String::new();
    push_nodes(&mut a, root_node);
    let mut c_code = String::new();
    c_code.append("#include <stdio.h>\n#include <stdint.h>\nint main(void){uint8_t mem[30000]={0};uint8_t* ptr = mem;");
    c_code.append(a.as_str());
    c_code.append("}");
    assert(c_code@ =~= c_program(nods_model(root_node@)));
    c_code
}


/// Whether C code can be written for every instruction of the tree.
pub fn is_c_ready(nodes: &Nods) -> (r: bool)
    ensures
        r == all_c_ready(nods_model(nodes@)),
    decreases nods_model(nodes@),
{
    let ghost model = nods_model(nodes@);
    proof {
        lemma_nods_model_len(nodes@);
        assert(model.take(0) =~= Seq::<NodModel>::empty());
    }
    let mut i: usize = 0;
    while i < nodes.len()
        invariant
            model == nods_model(nodes@),
            model.len() == nodes@.len(),
            i <= nodes@.len(),
            all_c_ready(model.take(i as int)),
        decreases nodes@.len() - i,
    {
        proof {
            lemma_nods_model_index(nodes@, i as int);
            assert(model.take(i + 1).drop_last() =~= model.take(i as int));
            assert(model.take(i + 1).last() == model[i as int]);
        }
        let ready = match &nodes[i] {
            Nod::Loop(loop_nodes) => {
                proof {
                    let m = model[i as int];
                    assert(m == NodModel::Loop(nods_model(loop_nodes@)));
                    assert(decreases_to!(model => m));
                    assert(decreases_to!(m => m->Loop_0));
                }
                is_c_ready(loop_nodes)
            },
            Nod::Instruction(Instruction::SetValue(_, v)) => matches!(v, Value::Const(0)),
            Nod::Instruction(_) => true,
        };
        assert(nod_c_ready(model[i as int]) == ready);
        if !ready {
            proof {
                assert(!all_c_ready(model.take(i + 1)));
                lemma_c_ready_prefix(model, i as int + 1);
            }
            return false;
        }
        i = i + 1;
    }
    proof {
        assert(model.take(nodes@.len() as int) =~= model);
    }
    true
}

proof fn lemma_c_ready_prefix(ns: Seq<NodModel>, i: int)
    requires
        0 <= i <= ns.len(),
        !all_c_ready(ns.take(i)),
    ensures
        !all_c_ready(ns),
    decreases ns.len() - i,
{
    if i < ns.len() {
        assert(ns.take(i + 1).drop_last() =~= ns.take(i));
        lemma_c_ready_prefix(ns, i + 1);
    } else {
        assert(ns.take(i) =~= ns);
    }
}

} // verus!
