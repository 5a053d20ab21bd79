//! Pattern rewrites over instruction trees, and a simpler offset pass that writes each run's
//! instructions offset by offset.

use vstd::prelude::*;
use std::collections::BTreeMap;
use crate::instruction::{Instruction, Value, mergeable, merge_rule, no_action};
use crate::optimize::{add_isize, sub_isize, move_nodes, push_move, append_nods, can_merge};
use crate::parse::{Nod, NodModel, Nods, nod_model, nods_model, lemma_nods_model_index, lemma_nods_model_len,
    lemma_nods_model_push};

verus! {

/// The instruction at position `k` of a body, if that node is an instruction.
pub open spec fn ins_at(body: Seq<NodModel>, k: int) -> Option<Instruction> {
    if 0 <= k < body.len() && body[k] is Instruction {
        Some(body[k]->Instruction_0)
    } else {
        None
    }
}

pub open spec fn instrs(s: Seq<Instruction>) -> Seq<NodModel> {
    s.map_values(|i: Instruction| NodModel::Instruction(i))
}

/// The offset `x` cells to the left.
pub open spec fn neg(x: usize) -> isize {
    (-(x as int)) as isize
}

/// The body of a loop node.
pub open spec fn loop_body(n: NodModel) -> Option<Seq<NodModel>> {
    match n {
        NodModel::Loop(body) => Some(body),
        _ => None,
    }
}

pub open spec fn set0() -> Instruction {
    Instruction::SetValue(0, Value::Const(0))
}

fn nodes_of(v: Vec<Instruction>) -> (r: Nods)
    ensures
        nods_model(r@) == instrs(v@),
{
    let mut out: Nods = Vec::new();
    let mut i: usize = 0;
    while i < v.len()
        invariant
            i <= v@.len(),
            nods_model(out@) == instrs(v@.take(i as int)),
        decreases v@.len() - i,
    {
        proof {
            lemma_nods_model_push(out@, Nod::Instruction(v@[i as int]));
            assert(instrs(v@.take(i + 1)) =~= instrs(v@.take(i as int)).push(NodModel::Instruction(v@[i as int])));
        }
        out.push(Nod::Instruction(v[i]));
        i = i + 1;
    }
    assert(v@.take(v@.len() as int) =~= v@);
    out
}

/// The instructions of a loop's body, position by position (`None` for a nested loop).
fn body_instructions(node: &Nod) -> (r: Option<Vec<Option<Instruction>>>)
    ensures
        match loop_body(nod_model(*node)) {
            Some(body) => r matches Some(v) && v@.len() == body.len()
                && forall|k: int| 0 <= k < body.len() ==> #[trigger] v@[k] == ins_at(body, k),
            None => r is None,
        },
{
    match node {
        Nod::Loop(loop_nodes) => {
            let ghost body = nods_model(loop_nodes@);
            proof { lemma_nods_model_len(loop_nodes@); }
            let mut v: Vec<Option<Instruction>> = Vec::new();
            let mut i: usize = 0;
            while i < loop_nodes.len()
                invariant
                    body == nods_model(loop_nodes@),
                    body.len() == loop_nodes@.len(),
                    i <= loop_nodes@.len(),
                    v@.len() == i,
                    forall|k: int| 0 <= k < i ==> #[trigger] v@[k] == ins_at(body, k),
                decreases loop_nodes@.len() - i,
            {
                proof { lemma_nods_model_index(loop_nodes@, i as int); }
                let x = match &loop_nodes[i] {
                    Nod::Instruction(ins) => Some(*ins),
                    _ => None,
                };
                v.push(x);
                i = i + 1;
            }
            Some(v)
        },
        _ => None,
    }
}

fn neg_offset(x: usize) -> (r: isize)
    ensures
        r == neg(x),
{
    (0i128 - x as i128) as isize
}

/// `[-]` (or any loop that only steps one cell by one) clears that cell.
pub open spec fn zeroset_rule(n: NodModel) -> Option<Seq<NodModel>> {
    match loop_body(n) {
        Some(body) => if body.len() == 1 {
            match ins_at(body, 0) {
                Some(Instruction::Add(o, Value::Const(1))) | Some(Instruction::Sub(o, Value::Const(1))) =>
                    Some(instrs(seq![Instruction::SetValue(o, Value::Const(0))])),
                _ => None,
            }
        } else {
            None
        },
        None => None,
    }
}

pub fn zeroset_opt(node: &Nod) -> (r: Option<Nods>)
    ensures
        match zeroset_rule(nod_model(*node)) {
            Some(m) => r matches Some(v) && nods_model(v@) == m,
            None => r is None,
        },
{
    let b = match body_instructions(node) {
        Some(b) => b,
        None => return None,
    };
    if b.len() != 1 {
        return None;
    }
    match b[0] {
        Some(Instruction::Add(o, Value::Const(1))) | Some(Instruction::Sub(o, Value::Const(1))) => {
            let v = vec![Instruction::SetValue(o, Value::Const(0))];
            assert(v@ =~= seq![Instruction::SetValue(o, Value::Const(0))]);
            Some(nodes_of(v))
        },
        _ => None,
    }
}

/// The instructions of a loop body rewritten as the multiplications it performs, read
/// left to right: additions of a constant become (multiplied) additions of the counter,
/// placed in front in reverse order; `-` on the counter becomes a clear at the back.
pub open spec fn loop_fold(body: Seq<NodModel>) -> Option<(Seq<Instruction>, Seq<Instruction>)>
    decreases body.len(),
{
    if body.len() == 0 {
        Some((Seq::empty(), Seq::empty()))
    } else {
        match loop_fold(body.drop_last()) {
            None => None,
            Some((front, back)) => match ins_at(body, body.len() - 1) {
                Some(Instruction::Add(o, Value::Const(1))) =>
                    Some((seq![Instruction::Add(o, Value::Memory(0))] + front, back)),
                Some(Instruction::Add(o, Value::Const(v))) => Some((seq![Instruction::MulAdd(o, 0, v)] + front, back)),
                Some(Instruction::Sub(0, Value::Const(1))) => Some((front, back.push(set0()))),
                _ => None,
            },
        }
    }
}

pub open spec fn loop_rule(n: NodModel) -> Option<Seq<NodModel>> {
    match loop_body(n) {
        Some(body) => match loop_fold(body) {
            Some((front, back)) => Some(instrs(front + back)),
            None => None,
        },
        None => None,
    }
}

pub fn loop_opt(node: &Nod) -> (r: Option<Nods>)
    ensures
        match loop_rule(nod_model(*node)) {
            Some(m) => r matches Some(v) && nods_model(v@) == m,
            None => r is None,
        },
{
    let b = match body_instructions(node) {
        Some(b) => b,
        None => return None,
    };
    let ghost body = loop_body(nod_model(*node))->0;
    let mut front: Vec<Instruction> = Vec::new();
    let mut back: Vec<Instruction> = Vec::new();
    let mut i: usize = 0;
    assert(body.take(0) =~= Seq::<NodModel>::empty());
    while i < b.len()
        invariant
            loop_body(nod_model(*node)) == Some(body),
            b@.len() == body.len(),
            forall|k: int| 0 <= k < body.len() ==> #[trigger] b@[k] == ins_at(body, k),
            i <= b@.len(),
            loop_fold(body.take(i as int)) == Some((front@, back@)),
        decreases b@.len() - i,
    {
        proof {
            assert(body.take(i + 1).drop_last() =~= body.take(i as int));
            assert(ins_at(body.take(i + 1), i as int) == ins_at(body, i as int));
        }
        match b[i] {
            Some(Instruction::Add(o, Value::Const(1))) => front.insert(0, Instruction::Add(o, Value::Memory(0))),
            Some(Instruction::Add(o, Value::Const(v))) => front.insert(0, Instruction::MulAdd(o, 0, v)),
            Some(Instruction::Sub(0, Value::Const(1))) => back.push(Instruction::SetValue(0, Value::Const(0))),
            _ => {
                proof { lemma_loop_fold_none(body, i as int + 1); }
                return None;
            },
        }
        i = i + 1;
    }
    assert(body.take(body.len() as int) =~= body);
    let ghost fb = front@ + back@;
    let mut all = front;
    let mut j: usize = 0;
    let ghost f = all@;
    while j < back.len()
        invariant
            j <= back@.len(),
            all@ == f + back@.take(j as int),
        decreases back@.len() - j,
    {
        all.push(back[j]);
        j = j + 1;
        assert(all@ =~= f + back@.take(j as int));
    }
    assert(back@.take(back@.len() as int) =~= back@);
    Some(nodes_of(all))
}

proof fn lemma_loop_fold_none(body: Seq<NodModel>, i: int)
    requires
        0 <= i <= body.len(),
        loop_fold(body.take(i)) is None,
    ensures
        loop_fold(body) is None,
    decreases body.len() - i,
{
    if i < body.len() {
        assert(body.take(i + 1).drop_last() =~= body.take(i));
        lemma_loop_fold_none(body, i + 1);
    } else {
        assert(body.take(i) =~= body);
    }
}


/// `[->>>+<<<]` adds the cell to the one `x` to the right, and `[-<<<+>>>]` to the one `x`
/// to the left; either way the cell is then cleared. `-` may also come last.
pub open spec fn add_rule(n: NodModel) -> Option<Seq<NodModel>> {
    match loop_body(n) {
        Some(b) => if b.len() == 4 {
            let right = match (ins_at(b, 0), ins_at(b, 1), ins_at(b, 2), ins_at(b, 3)) {
                (Some(Instruction::Sub(0, Value::Const(1))), Some(Instruction::PtrIncrement(x)), Some(Instruction::Add(0, Value::Const(1))), Some(Instruction::PtrDecrement(y)))
                | (Some(Instruction::PtrIncrement(x)), Some(Instruction::Add(0, Value::Const(1))), Some(Instruction::PtrDecrement(y)), Some(Instruction::Sub(0, Value::Const(1)))) =>
                    if x == y { Some(instrs(seq![Instruction::Add(x as isize, Value::Memory(0)), set0()])) } else { None },
                _ => None,
            };
            let left = match (ins_at(b, 0), ins_at(b, 1), ins_at(b, 2), ins_at(b, 3)) {
                (Some(Instruction::Sub(0, Value::Const(1))), Some(Instruction::PtrDecrement(x)), Some(Instruction::Add(0, Value::Const(1))), Some(Instruction::PtrIncrement(y)))
                | (Some(Instruction::PtrDecrement(x)), Some(Instruction::Add(0, Value::Const(1))), Some(Instruction::PtrIncrement(y)), Some(Instruction::Sub(0, Value::Const(1)))) =>
                    if x == y { Some(instrs(seq![Instruction::Add(neg(y), Value::Memory(0)), set0()])) } else { None },
                _ => None,
            };
            if right is Some { right } else { left }
        } else {
            None
        },
        None => None,
    }
}

pub fn add_opt(node: &Nod) -> (r: Option<Nods>)
    ensures
        match add_rule(nod_model(*node)) {
            Some(m) => r matches Some(v) && nods_model(v@) == m,
            None => r is None,
        },
{
    let b = match body_instructions(node) {
        Some(b) => b,
        None => return None,
    };
    if b.len() != 4 {
        return None;
    }
    match (b[0], b[1], b[2], b[3]) {
        (Some(Instruction::Sub(0, Value::Const(1))), Some(Instruction::PtrIncrement(x)), Some(Instruction::Add(0, Value::Const(1))), Some(Instruction::PtrDecrement(y)))
        | (Some(Instruction::PtrIncrement(x)), Some(Instruction::Add(0, Value::Const(1))), Some(Instruction::PtrDecrement(y)), Some(Instruction::Sub(0, Value::Const(1)))) => {
            if x == y {
                let v = vec![Instruction::Add(x as isize, Value::Memory(0)), Instruction::SetValue(0, Value::Const(0))];
                assert(v@ =~= seq![Instruction::Add(x as isize, Value::Memory(0)), set0()]);
                return Some(nodes_of(v));
            }
        },
        _ => {},
    }
    match (b[0], b[1], b[2], b[3]) {
        (Some(Instruction::Sub(0, Value::Const(1))), Some(Instruction::PtrDecrement(x)), Some(Instruction::Add(0, Value::Const(1))), Some(Instruction::PtrIncrement(y)))
        | (Some(Instruction::PtrDecrement(x)), Some(Instruction::Add(0, Value::Const(1))), Some(Instruction::PtrIncrement(y)), Some(Instruction::Sub(0, Value::Const(1)))) => {
            if x == y {
                let to = neg_offset(y);
                let v = vec![Instruction::Add(to, Value::Memory(0)), Instruction::SetValue(0, Value::Const(0))];
                assert(v@ =~= seq![Instruction::Add(neg(y), Value::Memory(0)), set0()]);
                return Some(nodes_of(v));
            }
        },
        _ => {},
    }
    None
}

/// `[->>>-<<<]` takes the cell off the one `x` to the right, and `[-<<<->>>]` off the one
/// `x` to the left; either way the cell is then cleared. `-` may also come last.
pub open spec fn sub_rule(n: NodModel) -> Option<Seq<NodModel>> {
    match loop_body(n) {
        Some(b) => if b.len() == 4 {
            let right = match (ins_at(b, 0), ins_at(b, 1), ins_at(b, 2), ins_at(b, 3)) {
                (Some(Instruction::Sub(0, Value::Const(1))), Some(Instruction::PtrIncrement(x)), Some(Instruction::Sub(0, Value::Const(1))), Some(Instruction::PtrDecrement(y)))
                | (Some(Instruction::PtrIncrement(x)), Some(Instruction::Sub(0, Value::Const(1))), Some(Instruction::PtrDecrement(y)), Some(Instruction::Sub(0, Value::Const(1)))) =>
                    if x == y { Some(instrs(seq![Instruction::Sub(x as isize, Value::Memory(0)), set0()])) } else { None },
                _ => None,
            };
            let left = match (ins_at(b, 0), ins_at(b, 1), ins_at(b, 2), ins_at(b, 3)) {
                (Some(Instruction::Sub(0, Value::Const(1))), Some(Instruction::PtrDecrement(x)), Some(Instruction::Sub(0, Value::Const(1))), Some(Instruction::PtrIncrement(y)))
                | (Some(Instruction::PtrDecrement(x)), Some(Instruction::Sub(0, Value::Const(1))), Some(Instruction::PtrIncrement(y)), Some(Instruction::Sub(0, Value::Const(1)))) =>
                    if x == y { Some(instrs(seq![Instruction::Sub(neg(y), Value::Memory(0)), set0()])) } else { None },
                _ => None,
            };
            if right is Some { right } else { left }
        } else {
            None
        },
        None => None,
    }
}

pub fn sub_opt(node: &Nod) -> (r: Option<Nods>)
    ensures
        match sub_rule(nod_model(*node)) {
            Some(m) => r matches Some(v) && nods_model(v@) == m,
            None => r is None,
        },
{
    let b = match body_instructions(node) {
        Some(b) => b,
        None => return None,
    };
    if b.len() != 4 {
        return None;
    }
    match (b[0], b[1], b[2], b[3]) {
        (Some(Instruction::Sub(0, Value::Const(1))), Some(Instruction::PtrIncrement(x)), Some(Instruction::Sub(0, Value::Const(1))), Some(Instruction::PtrDecrement(y)))
        | (Some(Instruction::PtrIncrement(x)), Some(Instruction::Sub(0, Value::Const(1))), Some(Instruction::PtrDecrement(y)), Some(Instruction::Sub(0, Value::Const(1)))) => {
            if x == y {
                let v = vec![Instruction::Sub(x as isize, Value::Memory(0)), Instruction::SetValue(0, Value::Const(0))];
                assert(v@ =~= seq![Instruction::Sub(x as isize, Value::Memory(0)), set0()]);
                return Some(nodes_of(v));
            }
        },
        _ => {},
    }
    match (b[0], b[1], b[2], b[3]) {
        (Some(Instruction::Sub(0, Value::Const(1))), Some(Instruction::PtrDecrement(x)), Some(Instruction::Sub(0, Value::Const(1))), Some(Instruction::PtrIncrement(y)))
        | (Some(Instruction::PtrDecrement(x)), Some(Instruction::Sub(0, Value::Const(1))), Some(Instruction::PtrIncrement(y)), Some(Instruction::Sub(0, Value::Const(1)))) => {
            if x == y {
                let to = neg_offset(y);
                let v = vec![Instruction::Sub(to, Value::Memory(0)), Instruction::SetValue(0, Value::Const(0))];
                assert(v@ =~= seq![Instruction::Sub(neg(y), Value::Memory(0)), set0()]);
                return Some(nodes_of(v));
            }
        },
        _ => {},
    }
    None
}

/// `[->+>+<<]` copies the cell into the two cells to its right; `[-<+<+>>]` and `[-<<+>+>]`
/// into the two to its left. The cell is then cleared.
pub open spec fn copy_rule(n: NodModel) -> Option<Seq<NodModel>> {
    match loop_body(n) {
        Some(b) => if b.len() == 6 {
            let t = (ins_at(b, 0), ins_at(b, 1), ins_at(b, 2), ins_at(b, 3), ins_at(b, 4), ins_at(b, 5));
            let first = match t {
                (Some(Instruction::Sub(0, Value::Const(1))), Some(Instruction::PtrIncrement(x)), Some(Instruction::Add(0, Value::Const(1))),
                    Some(Instruction::PtrIncrement(y)), Some(Instruction::Add(0, Value::Const(1))), Some(Instruction::PtrDecrement(z))) =>
                    if x + y == z {
                        Some(instrs(seq![Instruction::Add(x as isize, Value::Memory(0)), Instruction::Add(z as isize, Value::Memory(0)), set0()]))
                    } else {
                        None
                    },
                _ => None,
            };
            let second = match t {
                (Some(Instruction::Sub(0, Value::Const(1))), Some(Instruction::PtrDecrement(x)), Some(Instruction::Add(0, Value::Const(1))),
                    Some(Instruction::PtrDecrement(y)), Some(Instruction::Add(0, Value::Const(1))), Some(Instruction::PtrIncrement(z))) =>
                    if x + y == z {
                        Some(instrs(seq![Instruction::Add(neg(x), Value::Memory(0)), Instruction::Add(neg(z), Value::Memory(0)), set0()]))
                    } else {
                        None
                    },
                _ => None,
            };
            let third = match t {
                (Some(Instruction::Sub(0, Value::Const(1))), Some(Instruction::PtrDecrement(x)), Some(Instruction::Add(0, Value::Const(1))),
                    Some(Instruction::PtrIncrement(y)), Some(Instruction::Add(0, Value::Const(1))), Some(Instruction::PtrIncrement(z))) =>
                    if x == y + z {
                        Some(instrs(seq![Instruction::Add(neg(x), Value::Memory(0)), Instruction::Add(neg((x - y) as usize), Value::Memory(0)), set0()]))
                    } else {
                        None
                    },
                _ => None,
            };
            if first is Some { first } else if second is Some { second } else { third }
        } else {
            None
        },
        None => None,
    }
}

pub fn copy_opt(node: &Nod) -> (r: Option<Nods>)
    ensures
        match copy_rule(nod_model(*node)) {
            Some(m) => r matches Some(v) && nods_model(v@) == m,
            None => r is None,
        },
{
    let b = match body_instructions(node) {
        Some(b) => b,
        None => return None,
    };
    if b.len() != 6 {
        return None;
    }
    match (b[0], b[1], b[2], b[3], b[4], b[5]) {
        (Some(Instruction::Sub(0, Value::Const(1))), Some(Instruction::PtrIncrement(x)), Some(Instruction::Add(0, Value::Const(1))),
            Some(Instruction::PtrIncrement(y)), Some(Instruction::Add(0, Value::Const(1))), Some(Instruction::PtrDecrement(z))) => {
            if z >= y && x == z - y {
                let v = vec![Instruction::Add(x as isize, Value::Memory(0)), Instruction::Add(z as isize, Value::Memory(0)),
                    Instruction::SetValue(0, Value::Const(0))];
                assert(v@ =~= seq![Instruction::Add(x as isize, Value::Memory(0)), Instruction::Add(z as isize, Value::Memory(0)), set0()]);
                return Some(nodes_of(v));
            }
        },
        (Some(Instruction::Sub(0, Value::Const(1))), Some(Instruction::PtrDecrement(x)), Some(Instruction::Add(0, Value::Const(1))),
            Some(Instruction::PtrDecrement(y)), Some(Instruction::Add(0, Value::Const(1))), Some(Instruction::PtrIncrement(z))) => {
            if z >= y && x == z - y {
                let a = neg_offset(x);
                let c = neg_offset(z);
                let v = vec![Instruction::Add(a, Value::Memory(0)), Instruction::Add(c, Value::Memory(0)),
                    Instruction::SetValue(0, Value::Const(0))];
                assert(v@ =~= seq![Instruction::Add(neg(x), Value::Memory(0)), Instruction::Add(neg(z), Value::Memory(0)), set0()]);
                return Some(nodes_of(v));
            }
        },
        (Some(Instruction::Sub(0, Value::Const(1))), Some(Instruction::PtrDecrement(x)), Some(Instruction::Add(0, Value::Const(1))),
            Some(Instruction::PtrIncrement(y)), Some(Instruction::Add(0, Value::Const(1))), Some(Instruction::PtrIncrement(z))) => {
            if x >= y && x - y == z {
                let a = neg_offset(x);
                let c = neg_offset(x - y);
                let v = vec![Instruction::Add(a, Value::Memory(0)), Instruction::Add(c, Value::Memory(0)),
                    Instruction::SetValue(0, Value::Const(0))];
                assert(v@ =~= seq![Instruction::Add(neg(x), Value::Memory(0)), Instruction::Add(neg((x - y) as usize), Value::Memory(0)), set0()]);
                return Some(nodes_of(v));
            }
        },
        _ => {},
    }
    None
}

/// `[<->-<+>]` takes the cell off the one to its left and adds it to the one to the left of
/// where it went: both moves return, and the cell is then cleared.
pub open spec fn sub_add_rule(n: NodModel) -> Option<Seq<NodModel>> {
    match loop_body(n) {
        Some(b) => if b.len() == 7 {
            match (ins_at(b, 0), ins_at(b, 1), ins_at(b, 2), ins_at(b, 3), ins_at(b, 4), ins_at(b, 5), ins_at(b, 6)) {
                (Some(Instruction::PtrDecrement(dec)), Some(Instruction::Sub(0, Value::Const(1))), Some(Instruction::PtrIncrement(inc)),
                    Some(Instruction::Sub(0, Value::Const(1))), Some(Instruction::PtrDecrement(dec2)), Some(Instruction::Add(0, Value::Const(1))),
                    Some(Instruction::PtrIncrement(inc2))) =>
                    if dec == inc && dec2 == inc2 {
                        Some(instrs(seq![Instruction::Sub(neg(dec), Value::Memory(0)), Instruction::Add(neg(dec2), Value::Memory(0)), set0()]))
                    } else {
                        None
                    },
                _ => None,
            }
        } else {
            None
        },
        None => None,
    }
}

pub fn sub_add_opt(node: &Nod) -> (r: Option<Nods>)
    ensures
        match sub_add_rule(nod_model(*node)) {
            Some(m) => r matches Some(v) && nods_model(v@) == m,
            None => r is None,
        },
{
    let b = match body_instructions(node) {
        Some(b) => b,
        None => return None,
    };
    if b.len() != 7 {
        return None;
    }
    match (b[0], b[1], b[2], b[3], b[4], b[5], b[6]) {
        (Some(Instruction::PtrDecrement(dec)), Some(Instruction::Sub(0, Value::Const(1))), Some(Instruction::PtrIncrement(inc)),
            Some(Instruction::Sub(0, Value::Const(1))), Some(Instruction::PtrDecrement(dec2)), Some(Instruction::Add(0, Value::Const(1))),
            Some(Instruction::PtrIncrement(inc2))) => {
            if dec == inc && dec2 == inc2 {
                let a = neg_offset(dec);
                let c = neg_offset(dec2);
                let v = vec![Instruction::Sub(a, Value::Memory(0)), Instruction::Add(c, Value::Memory(0)),
                    Instruction::SetValue(0, Value::Const(0))];
                assert(v@ =~= seq![Instruction::Sub(neg(dec), Value::Memory(0)), Instruction::Add(neg(dec2), Value::Memory(0)), set0()]);
                return Some(nodes_of(v));
            }
        },
        _ => {},
    }
    None
}


/// Fuses neighbouring instructions of the top level, as far as the fusion rules reach.
pub fn merge_instruction(nodes: Nods) -> (r: Nods)
    ensures
        nods_model(r@) == crate::optimize::merge_nods(nods_model(nodes@)),
{
    crate::optimize::merge_instruction(nodes)
}

/// The fusing of the instructions of one offset: a fused instruction that does nothing is dropped.
pub open spec fn settle_plain(acc: Seq<Instruction>) -> Seq<Instruction>
    decreases acc.len(),
{
    if acc.len() >= 2 && mergeable(acc[acc.len() - 2], acc.last()) && merge_rule(acc[acc.len() - 2], acc.last()) is Some {
        let m = merge_rule(acc[acc.len() - 2], acc.last())->0;
        let front = acc.take(acc.len() - 2);
        if no_action(m) {
            settle_plain(front)
        } else {
            settle_plain(front.push(m))
        }
    } else {
        acc
    }
}

/// The instructions that address one offset.
pub struct Instructions {
    inner: Vec<Instruction>,
}

impl Instructions {
    pub closed spec fn view_inner(&self) -> Seq<Instruction> {
        self.inner@
    }

    pub fn new() -> (r: Self)
        ensures
            r.view_inner() == Seq::<Instruction>::empty(),
    {
        Self { inner: Vec::new() }
    }

    pub fn from_ins(ins: Instruction) -> (r: Self)
        ensures
            r.view_inner() == seq![ins],
    {
        let v = vec![ins];
        assert(v@ =~= seq![ins]);
        Self { inner: v }
    }

    fn settle(&mut self)
        ensures
            final(self).view_inner() == settle_plain(old(self).view_inner()),
        decreases old(self).view_inner().len(),
    {
        let n = self.inner.len();
        if n >= 2 {
            let a = self.inner[n - 2];
            let b = self.inner[n - 1];
            if can_merge(a, b) {
                if let Some(merged) = a.merge(b) {
                    self.inner.pop();
                    self.inner.pop();
                    assert(self.inner@ =~= old(self).inner@.take(n - 2));
                    if !merged.is_no_action() {
                        self.inner.push(merged);
                    }
                    self.settle();
                    return;
                }
            }
        }
    }

    /// Appends an instruction and fuses it with the ones before it, as far as they fuse.
    pub fn push(&mut self, ins: Instruction)
        ensures
            final(self).view_inner() == settle_plain(old(self).view_inner().push(ins)),
    {
        self.inner.push(ins);
        self.settle();
    }

    fn inner_vec(&self) -> (r: Vec<Instruction>)
        ensures
            r@ == self.view_inner(),
    {
        let mut out: Vec<Instruction> = Vec::new();
        let mut i: usize = 0;
        while i < self.inner.len()
            invariant
                i <= self.inner@.len(),
                out@ == self.inner@.take(i as int),
            decreases self.inner@.len() - i,
        {
            out.push(self.inner[i]);
            assert(self.inner@.take(i + 1) =~= self.inner@.take(i as int).push(self.inner@[i as int]));
            i = i + 1;
        }
        assert(self.inner@.take(self.inner@.len() as int) =~= self.inner@);
        out
    }

    pub fn inner(&self) -> (r: &Vec<Instruction>)
        ensures
            r@ == self.view_inner(),
    {
        &self.inner
    }
}

/// Instructions the offset pass accepts: pointer moves, and changes and writes of the
/// current cell.
pub open spec fn flushable(i: Instruction) -> bool {
    match i {
        Instruction::PtrIncrement(_) | Instruction::PtrDecrement(_) => true,
        Instruction::Add(0, Value::Const(_)) | Instruction::Sub(0, Value::Const(_)) | Instruction::Output(0, _) => true,
        _ => false,
    }
}

pub open spec fn nod_flushable(n: NodModel) -> bool
    decreases n,
{
    match n {
        NodModel::Loop(body) => all_flushable(body),
        NodModel::Instruction(i) => flushable(i),
    }
}

pub open spec fn all_flushable(ns: Seq<NodModel>) -> bool
    decreases ns,
{
    if ns.len() == 0 {
        true
    } else {
        all_flushable(ns.drop_last()) && nod_flushable(ns.last())
    }
}

proof fn lemma_all_flushable_index(ns: Seq<NodModel>, k: int)
    requires
        all_flushable(ns),
        0 <= k < ns.len(),
    ensures
        nod_flushable(ns[k]),
    decreases ns.len(),
{
    if k < ns.len() - 1 {
        lemma_all_flushable_index(ns.drop_last(), k);
    }
}

pub type NTable = Seq<(isize, Seq<Instruction>)>;

/// The index of the first entry whose offset is at least `key`.
pub open spec fn key_pos(t: NTable, key: isize) -> int
    decreases t.len(),
{
    if t.len() == 0 || t[0].0 >= key {
        0
    } else {
        1 + key_pos(t.drop_first(), key)
    }
}

/// An instruction added to the entry of `key` (fused with what is there).
pub open spec fn ntable_push(t: NTable, key: isize, ins: Instruction) -> NTable {
    let p = key_pos(t, key);
    if p < t.len() && t[p].0 == key {
        t.update(p, (key, settle_plain(t[p].1.push(ins))))
    } else {
        t.insert(p, (key, seq![ins]))
    }
}

/// A collected instruction put at `offset`; a write writes once.
pub open spec fn nplaced(ins: Instruction, offset: isize) -> Instruction {
    match ins {
        Instruction::Add(_, v) => Instruction::Add(offset, v),
        Instruction::Sub(_, v) => Instruction::Sub(offset, v),
        Instruction::Output(_, _) => Instruction::Output(offset, 1),
        _ => ins,
    }
}

/// The collected instructions written out offset by offset, in order of offset.
pub open spec fn nflush(t: NTable) -> Seq<NodModel>
    decreases t.len(),
{
    if t.len() == 0 {
        Seq::empty()
    } else {
        nflush(t.drop_last()) + t.last().1.map_values(|i: Instruction| NodModel::Instruction(nplaced(i, t.last().0)))
    }
}

/// The offset pass over the nodes left, with the pointer offset and the instructions collected
/// so far: each loop is preceded by the collected instructions and one pointer move.
pub open spec fn no_fold(ns: Seq<NodModel>, ptr: isize, t: NTable) -> Seq<NodModel>
    decreases ns, 0int,
{
    if ns.len() == 0 {
        nflush(t) + move_nodes(ptr)
    } else {
        let rest = ns.drop_first();
        match ns[0] {
            NodModel::Loop(body) => nflush(t) + move_nodes(ptr) + seq![NodModel::Loop(no_items(body))]
                + no_fold(rest, 0, Seq::empty()),
            NodModel::Instruction(Instruction::PtrIncrement(n)) => no_fold(rest, add_isize(ptr, n as isize), t),
            NodModel::Instruction(Instruction::PtrDecrement(n)) => no_fold(rest, sub_isize(ptr, n as isize), t),
            NodModel::Instruction(i) => no_fold(rest, ptr, ntable_push(t, ptr, i)),
        }
    }
}

/// The offset pass over a node list. Between loops, the collected instructions are written
/// offset by offset, in increasing order of offset, so writes to different cells come out
/// grouped by cell: `>>.<.` writes the cell at offset 1 before the one at offset 2.
pub open spec fn no_items(ns: Seq<NodModel>) -> Seq<NodModel>
    decreases ns, 1int,
{
    no_fold(ns, 0, Seq::empty())
}

/// An ordered list of entries read as a table.
pub open spec fn nview(v: Seq<(isize, Vec<Instruction>)>) -> NTable {
    v.map_values(|e: (isize, Vec<Instruction>)| (e.0, e.1@))
}

/// Offsets that rise along the table.
pub open spec fn nkeys_rise(t: NTable) -> bool {
    forall|i: int, j: int| 0 <= i < j < t.len() ==> t[i].0 < t[j].0
}

/// The map holds exactly the entries of the table.
pub open spec fn nholds_entries(m: Map<isize, Instructions>, t: NTable) -> bool {
    forall|k: isize, l: Seq<Instruction>| (m.contains_key(k) && m[k].view_inner() == l) <==> #[trigger] t.contains((k, l))
}

/// Where a map holds an ordered table, the table has an entry for `key` just where the map does.
proof fn lemma_nentries_lookup(m: Map<isize, Instructions>, t: NTable, key: isize)
    requires
        nkeys_rise(t),
        nholds_entries(m, t),
    ensures
        (key_pos(t, key) < t.len() && t[key_pos(t, key)].0 == key) <==> m.contains_key(key),
        m.contains_key(key) ==> t[key_pos(t, key)].1 == m[key].view_inner(),
        0 <= key_pos(t, key) <= t.len(),
        forall|j: int| 0 <= j < key_pos(t, key) ==> t[j].0 < key,
        key_pos(t, key) < t.len() ==> t[key_pos(t, key)].0 >= key,
{
    lemma_key_pos_bounds(t, key);
    let p = key_pos(t, key);
    if p < t.len() && t[p].0 == key {
        assert(t.contains((key, t[p].1)));
    }
    if m.contains_key(key) {
        assert(t.contains((key, m[key].view_inner())));
        let j = choose|j: int| 0 <= j < t.len() && t[j] == (key, m[key].view_inner());
        if j < p {
        } else if j > p {
            assert(t[p].0 < t[j].0);
        }
    }
}

/// Setting the entry of `key` in an ordered table keeps it ordered, and is setting it in the map.
proof fn lemma_nentries_set(m: Map<isize, Instructions>, t: NTable, key: isize, e: Instructions)
    requires
        nkeys_rise(t),
        nholds_entries(m, t),
    ensures
        ({
            let p = key_pos(t, key);
            let n = if p < t.len() && t[p].0 == key { t.update(p, (key, e.view_inner())) } else { t.insert(p, (key, e.view_inner())) };
            nkeys_rise(n) && nholds_entries(m.insert(key, e), n)
        }),
{
    lemma_nentries_lookup(m, t, key);
    let p = key_pos(t, key);
    let v = e.view_inner();
    let found = p < t.len() && t[p].0 == key;
    let n = if found { t.update(p, (key, v)) } else { t.insert(p, (key, v)) };
    let m2 = m.insert(key, e);
    assert(nkeys_rise(n)) by {
        assert forall|a: int, b: int| 0 <= a < b < n.len() implies n[a].0 < n[b].0 by {
            if found {
                if a != p { assert(n[a] == t[a]); }
                if b != p { assert(n[b] == t[b]); }
            } else {
                if b < p {
                } else if b == p {
                } else if a == p {
                    assert(n[b] == t[b - 1]);
                    assert(t[p].0 <= t[b - 1].0 || b - 1 == p);
                } else if a < p {
                    assert(n[b] == t[b - 1]);
                    assert(t[p].0 <= t[b - 1].0 || b - 1 == p);
                } else {
                    assert(n[a] == t[a - 1] && n[b] == t[b - 1]);
                }
            }
        }
    }
    assert forall|k: isize, w: Seq<Instruction>| (m2.contains_key(k) && m2[k].view_inner() == w) <==> #[trigger] n.contains((k, w)) by {
        if k == key {
            if w == v {
                assert(n[p] == (key, v));
            }
            if n.contains((k, w)) {
                let j = choose|j: int| 0 <= j < n.len() && n[j] == (k, w);
                if j != p {
                    if j < p {
                        assert(n[j] == t[j]);
                        assert(t[j].0 < key);
                    } else if found {
                        assert(n[j] == t[j]);
                        assert(t[p].0 < t[j].0);
                    } else {
                        assert(n[j] == t[j - 1]);
                        assert(t[p].0 <= t[j - 1].0 || j - 1 == p);
                    }
                }
            }
        } else {
            if m.contains_key(k) && m[k].view_inner() == w {
                assert(t.contains((k, w)));
                let j = choose|j: int| 0 <= j < t.len() && t[j] == (k, w);
                if found {
                    assert(j != p);
                    assert(n[j] == (k, w));
                } else if j < p {
                    assert(n[j] == (k, w));
                } else {
                    assert(n[j + 1] == (k, w));
                }
            }
            if n.contains((k, w)) {
                let j = choose|j: int| 0 <= j < n.len() && n[j] == (k, w);
                if found {
                    assert(j != p);
                    assert(t[j] == (k, w));
                } else if j < p {
                    assert(t[j] == (k, w));
                } else {
                    assert(j != p);
                    assert(t[j - 1] == (k, w));
                }
                assert(t.contains((k, w)));
            }
        }
    }
}

/// Two tables with rising offsets and the same entries are the same table.
proof fn lemma_nentries_unique(s1: NTable, s2: NTable)
    requires
        nkeys_rise(s1),
        nkeys_rise(s2),
        forall|e: (isize, Seq<Instruction>)| s1.contains(e) <==> s2.contains(e),
    ensures
        s1 == s2,
    decreases s1.len(),
{
    if s1.len() == 0 {
        if s2.len() > 0 {
            assert(s2.contains(s2[0]));
        }
        assert(s1 =~= s2);
    } else {
        assert(s1.contains(s1[0]));
        assert(s2.len() > 0);
        assert(s2.contains(s2[0]));
        let j = choose|j: int| 0 <= j < s2.len() && s2[j] == s1[0];
        let i = choose|i: int| 0 <= i < s1.len() && s1[i] == s2[0];
        assert(s1[0].0 <= s1[i].0);
        assert(s2[0].0 <= s2[j].0);
        assert(i == 0);
        let r1 = s1.drop_first();
        let r2 = s2.drop_first();
        assert(nkeys_rise(r1)) by {
            assert forall|a: int, b: int| 0 <= a < b < r1.len() implies r1[a].0 < r1[b].0 by {
                assert(r1[a] == s1[a + 1] && r1[b] == s1[b + 1]);
            }
        }
        assert(nkeys_rise(r2)) by {
            assert forall|a: int, b: int| 0 <= a < b < r2.len() implies r2[a].0 < r2[b].0 by {
                assert(r2[a] == s2[a + 1] && r2[b] == s2[b + 1]);
            }
        }
        assert forall|e: (isize, Seq<Instruction>)| r1.contains(e) <==> r2.contains(e) by {
            if r1.contains(e) {
                let a = choose|a: int| 0 <= a < r1.len() && r1[a] == e;
                assert(s1[a + 1] == e);
                assert(s1.contains(e));
                let b = choose|b: int| 0 <= b < s2.len() && s2[b] == e;
                assert(s1[0].0 < s1[a + 1].0);
                assert(b != 0);
                assert(r2[b - 1] == e);
            }
            if r2.contains(e) {
                let b = choose|b: int| 0 <= b < r2.len() && r2[b] == e;
                assert(s2[b + 1] == e);
                assert(s2.contains(e));
                let a = choose|a: int| 0 <= a < s1.len() && s1[a] == e;
                assert(s2[0].0 < s2[b + 1].0);
                assert(a != 0);
                assert(r1[a - 1] == e);
            }
        }
        lemma_nentries_unique(r1, r2);
        assert(s1 =~= seq![s1[0]] + r1);
        assert(s2 =~= seq![s2[0]] + r2);
    }
}

proof fn lemma_key_pos_bounds(t: NTable, key: isize)
    ensures
        0 <= key_pos(t, key) <= t.len(),
        forall|j: int| 0 <= j < key_pos(t, key) ==> t[j].0 < key,
        key_pos(t, key) < t.len() ==> t[key_pos(t, key)].0 >= key,
    decreases t.len(),
{
    if t.len() > 0 && t[0].0 < key {
        lemma_key_pos_bounds(t.drop_first(), key);
        assert forall|j: int| 0 <= j < key_pos(t, key) implies t[j].0 < key by {
            if j > 0 {
                assert(t[j] == t.drop_first()[j - 1]);
            }
        }
        if key_pos(t, key) < t.len() {
            assert(t[key_pos(t, key)] == t.drop_first()[key_pos(t, key) - 1]);
        }
    }
}

fn place(ins: Instruction, offset: isize) -> (r: Instruction)
    ensures
        r == nplaced(ins, offset),
{
    match ins {
        Instruction::Add(_, v) => Instruction::Add(offset, v),
        Instruction::Sub(_, v) => Instruction::Sub(offset, v),
        Instruction::Output(_, _) => Instruction::Output(offset, 1),
        _ => ins,
    }
}

/// The entries of the map in order of offset.
fn map_table(m: &BTreeMap<isize, Instructions>, Ghost(t): Ghost<NTable>) -> (r: Vec<(isize, Vec<Instruction>)>)
    requires
        nkeys_rise(t),
        nholds_entries(m@, t),
    ensures
        nview(r@) == t,
{
    broadcast use vstd::std_specs::btree::group_btree_axioms;
    let mut out: Vec<(isize, Vec<Instruction>)> = Vec::new();
    let iter = m.iter();
    let ghost all = vstd::std_specs::iter::IteratorSpec::remaining(&iter);
    let ghost keys = all.map_values(|kv: (&isize, &Instructions)| *kv.0);
    assert(vstd::std_specs::btree::increasing_seq(keys));
    assert forall|i: int, j: int| 0 <= i < j < keys.len() implies keys[i] < keys[j] by {
        assert(vstd::std_specs::cmp::OrdSpec::cmp_spec(&keys[i], &keys[j]) is Less);
    }
    for kv in it: iter
        invariant
            nview(out@) == it.seq().take(it.index()).map_values(|kv: (&isize, &Instructions)| (*kv.0, kv.1.view_inner())),
            it.seq() == all,
    {
        let list = kv.1.inner_vec();
        let ghost before = out@;
        out.push((*kv.0, list));
        assert(nview(out@) =~= nview(before).push((*kv.0, kv.1.view_inner())));
    }
    let ghost o = nview(out@);
    assert(o.len() == keys.len());
    assert forall|i: int| 0 <= i < o.len() implies o[i] == (*all[i].0, all[i].1.view_inner()) by {}
    assert(nkeys_rise(o)) by {
        assert forall|i: int, j: int| 0 <= i < j < o.len() implies o[i].0 < o[j].0 by {
            assert(o[i].0 == keys[i]);
            assert(o[j].0 == keys[j]);
        }
    }
    assert forall|e: (isize, Seq<Instruction>)| o.contains(e) <==> t.contains(e) by {
        let (k, l) = e;
        if m@.contains_key(k) && m@[k].view_inner() == l {
            assert(all.contains((&k, &m@[k])));
            let j = choose|j: int| 0 <= j < all.len() && all[j] == (&k, &m@[k]);
            assert(o[j] == (k, l));
        }
        if o.contains(e) {
            let j = choose|j: int| 0 <= j < o.len() && o[j] == e;
            assert(m@.contains_key(*all[j].0) && m@[*all[j].0] == *all[j].1);
        }
        assert(t.contains((k, l)) <==> (m@.contains_key(k) && m@[k].view_inner() == l));
    }
    proof { lemma_nentries_unique(o, t); }
    out
}

fn flush(out: &mut Nods, m: &BTreeMap<isize, Instructions>, Ghost(t): Ghost<NTable>)
    requires
        nkeys_rise(t),
        nholds_entries(m@, t),
    ensures
        nods_model(final(out)@) == nods_model(old(out)@) + nflush(t),
{
    let table = map_table(m, Ghost(t));
    let ghost start = nods_model(out@);
    let mut k: usize = 0;
    assert(t.take(0) =~= Seq::<(isize, Seq<Instruction>)>::empty());
    assert(start + nflush(t.take(0)) =~= start);
    while k < table.len()
        invariant
            t == nview(table@),
            k <= table@.len(),
            nods_model(out@) == start + nflush(t.take(k as int)),
        decreases table@.len() - k,
    {
        let key = table[k].0;
        let list = &table[k].1;
        let ghost mid = nods_model(out@);
        let mut j: usize = 0;
        assert(list@.take(0).map_values(|i: Instruction| NodModel::Instruction(nplaced(i, key))) =~= Seq::<NodModel>::empty());
        while j < list.len()
            invariant
                j <= list@.len(),
                nods_model(out@) == mid + list@.take(j as int).map_values(|i: Instruction| NodModel::Instruction(nplaced(i, key))),
            decreases list@.len() - j,
        {
            let n = Nod::Instruction(place(list[j], key));
            proof {
                lemma_nods_model_push(out@, n);
                assert(list@.take(j + 1).map_values(|i: Instruction| NodModel::Instruction(nplaced(i, key)))
                    =~= list@.take(j as int).map_values(|i: Instruction| NodModel::Instruction(nplaced(i, key))).push(nod_model(n)));
            }
            out.push(n);
            j = j + 1;
        }
        proof {
            assert(list@.take(list@.len() as int) =~= list@);
            assert(t.take(k + 1).drop_last() =~= t.take(k as int));
            assert(t[k as int] == (key, list@));
            assert(start + nflush(t.take(k + 1)) =~= mid + list@.map_values(|i: Instruction| NodModel::Instruction(nplaced(i, key))));
        }
        k = k + 1;
    }
    assert(t.take(table@.len() as int) =~= t);
}

fn table_push(m: &mut BTreeMap<isize, Instructions>, Ghost(t): Ghost<NTable>, key: isize, ins: Instruction)
    requires
        nkeys_rise(t),
        nholds_entries(old(m)@, t),
    ensures
        nkeys_rise(ntable_push(t, key, ins)),
        nholds_entries(final(m)@, ntable_push(t, key, ins)),
{
    broadcast use vstd::std_specs::btree::group_btree_axioms;
    let ghost m0 = m@;
    proof { lemma_nentries_lookup(m0, t, key); }
    let entry = match m.remove(&key) {
        Some(mut instructions) => {
            instructions.push(ins);
            instructions
        },
        None => Instructions::from_ins(ins),
    };
    proof {
        lemma_nentries_set(m0, t, key, entry);
        assert(m@.insert(key, entry) =~= m0.insert(key, entry));
    }
    m.insert(key, entry);
}

fn offset_inner(nodes: &Nods) -> (r: Nods)
    requires
        all_flushable(nods_model(nodes@)),
    ensures
        nods_model(r@) == no_items(nods_model(nodes@)),
    decreases nods_model(nodes@),
{
    let ghost model = nods_model(nodes@);
    let mut new_nodes: Nods = Vec::new();
    let mut pointer_offset: isize = 0;
    let mut offset_instructions: BTreeMap<isize, Instructions> = BTreeMap::new();
    let ghost mut tbl: NTable = Seq::empty();
    proof {
        lemma_nods_model_len(nodes@);
        assert(model.skip(0) =~= model);
        assert forall|k: isize, l: Seq<Instruction>| (offset_instructions@.contains_key(k) && offset_instructions@[k].view_inner() == l)
            <==> #[trigger] tbl.contains((k, l)) by {
            if tbl.contains((k, l)) {
                let j = choose|j: int| 0 <= j < tbl.len() && tbl[j] == (k, l);
            }
        }
        assert(Seq::<NodModel>::empty() + no_items(model) =~= no_items(model));
    }
    let mut i: usize = 0;
    while i < nodes.len()
        invariant
            model == nods_model(nodes@),
            model.len() == nodes@.len(),
            all_flushable(model),
            i <= nodes@.len(),
            nkeys_rise(tbl),
            nholds_entries(offset_instructions@, tbl),
            nods_model(new_nodes@) + no_fold(model.skip(i as int), pointer_offset, tbl) == no_items(model),
        decreases nodes@.len() - i,
    {
        proof {
            lemma_nods_model_index(nodes@, i as int);
            lemma_all_flushable_index(model, i as int);
            assert(model.skip(i as int)[0] == model[i as int]);
            assert(model.skip(i as int).drop_first() =~= model.skip(i + 1));
        }
        let ghost before = nods_model(new_nodes@);
        let ghost t = tbl;
        let ghost ptr = pointer_offset;
        match &nodes[i] {
            Nod::Loop(loop_nodes) => {
                flush(&mut new_nodes, &offset_instructions, Ghost(tbl));
                push_move(&mut new_nodes, pointer_offset);
                proof {
                    assert(decreases_to!(model => model[i as int]));
                }
                let inner = offset_inner(loop_nodes);
                let n = Nod::Loop(inner);
                proof { lemma_nods_model_push(new_nodes@, n); }
                new_nodes.push(n);
                pointer_offset = 0;
                offset_instructions = BTreeMap::new();
                proof {
                    tbl = Seq::empty();
                    assert forall|k: isize, l: Seq<Instruction>| (offset_instructions@.contains_key(k) && offset_instructions@[k].view_inner() == l)
                        <==> #[trigger] tbl.contains((k, l)) by {
                        if tbl.contains((k, l)) {
                            let j = choose|j: int| 0 <= j < tbl.len() && tbl[j] == (k, l);
                        }
                    }
                    assert(before + no_fold(model.skip(i as int), ptr, t)
                        =~= nods_model(new_nodes@) + no_fold(model.skip(i + 1), 0, Seq::empty()));
                }
            },
            Nod::Instruction(ins) => {
                match ins {
                    Instruction::PtrIncrement(inc) => pointer_offset = pointer_offset.wrapping_add(*inc as isize),
                    Instruction::PtrDecrement(dec) => pointer_offset = pointer_offset.wrapping_sub(*dec as isize),
                    _ => {
                        table_push(&mut offset_instructions, Ghost(tbl), pointer_offset, *ins);
                        proof { tbl = ntable_push(tbl, pointer_offset, *ins); }
                    },
                }
            },
        }
        i = i + 1;
    }
    proof {
        assert(model.skip(nodes@.len() as int) =~= Seq::<NodModel>::empty());
    }
    flush(&mut new_nodes, &offset_instructions, Ghost(tbl));
    push_move(&mut new_nodes, pointer_offset);
    new_nodes
}

/// Folds pointer moves into the offsets of the instructions of each run; each run's
/// instructions are written offset by offset, then one pointer move. Writes therefore come
/// out in order of offset, and two writes of a cell that fuse write once;
/// `lemma_flush_offsets_keeps_runs` says where the result does what the nodes do.
pub fn offset_opt(nodes: &Nods) -> (r: Option<Nods>)
    requires
        all_flushable(nods_model(nodes@)),
    ensures
        r matches Some(v) && nods_model(v@) == no_items(nods_model(nodes@)),
{
    Some(offset_inner(nodes))
}

pub fn optimize(nodes: Nods) -> (r: Nods)
    requires
        all_flushable(nods_model(nodes@)),
    ensures
        nods_model(r@) == no_items(nods_model(nodes@)),
{
    match offset_opt(&nodes) {
        Some(r) => r,
        None => {
            proof { assert(false); }
            Vec::new()
        },
    }
}

} // verus!
