//! What the loop rewrites over trees of nodes keep of a run: a loop that counts its cell down
//! to zero, adding to other cells each round, does what the rewritten instructions do at once.

use vstd::prelude::*;
use crate::instruction::{Instruction, Value, Tape, cell, with_cell, wrap, run_instruction, lemma_wrap_add, lemma_wrap_byte};
use crate::nod_semantics::{run_nod, run_nods};
use crate::optimize::rewrites::{round_tape, rounds_tape, deltas};
use crate::optimize_new_node::{instrs, neg, set0, ins_at, loop_body, zeroset_rule, add_rule, sub_rule, copy_rule,
    sub_add_rule, loop_fold, loop_rule};
use crate::parse::NodModel;

verus! {

/// Instructions one after the other.
pub open spec fn instructions_tape(s: Seq<Instruction>, t: Tape) -> Tape
    decreases s.len(),
{
    if s.len() == 0 {
        t
    } else {
        run_instruction(s.last(), instructions_tape(s.drop_last(), t))
    }
}

pub(crate) proof fn lemma_instrs_runs(s: Seq<Instruction>, t: Tape, g: nat)
    ensures
        run_nods(instrs(s), t, g) == Some(instructions_tape(s, t)),
    decreases s.len(),
{
    if s.len() > 0 {
        lemma_instrs_runs(s.drop_last(), t, g);
        assert(instrs(s).drop_last() =~= instrs(s.drop_last()));
        assert(instrs(s).last() == NodModel::Instruction(s.last()));
        let t1 = instructions_tape(s.drop_last(), t);
        assert(run_nod(NodModel::Instruction(s.last()), t1, g) == Some(run_instruction(s.last(), t1)));
        assert(run_nods(instrs(s), t, g) == run_nod(instrs(s).last(), t1, g));
    }
}

/// A loop whose body takes one from its cell each round and changes the other cells by `d`,
/// when it finishes, has run as many rounds as the cell held.
pub(crate) proof fn lemma_nod_counting_loop(s: Seq<Instruction>, d: spec_fn(int) -> int, t: Tape, f: nat)
    requires
        d(0) == -1,
        forall|u: Tape| #[trigger] instructions_tape(s, u) == round_tape(d, u),
        run_nod(NodModel::Loop(instrs(s)), t, f) is Some,
    ensures
        run_nod(NodModel::Loop(instrs(s)), t, f) == Some(rounds_tape(d, t, cell(t, 0) as int)),
    decreases f,
{
    let c0 = cell(t, 0);
    if c0 == 0 {
        assert(rounds_tape(d, t, 0).mem =~= t.mem) by {
            assert forall|i: int| #[trigger] (rounds_tape(d, t, 0).mem)(i) == (t.mem)(i) by {
                lemma_wrap_byte((t.mem)(i));
            }
        }
        assert(rounds_tape(d, t, 0) =~= t);
    } else {
        let g = (f - 1) as nat;
        lemma_instrs_runs(s, t, g);
        let t2 = round_tape(d, t);
        assert(cell(t2, 0) == c0 - 1);
        lemma_nod_counting_loop(s, d, t2, g);
        let a = rounds_tape(d, t2, c0 - 1);
        let r = rounds_tape(d, t, c0 as int);
        assert forall|i: int| #[trigger] (a.mem)(i) == (r.mem)(i) by {
            let m = (t.mem)(i);
            let k = d(i - t.ptr);
            lemma_wrap_add(m + k, (c0 - 1) * k);
            assert(m + k + (c0 - 1) * k == m + c0 * k) by (nonlinear_arith);
        }
        assert(a.mem =~= r.mem);
        assert(a =~= r);
    }
}

pub(crate) proof fn lemma_scale(c0: int, k: int)
    ensures
        k == 1 ==> c0 * k == c0,
        k == -1 ==> c0 * k == -c0,
        k == 0 ==> c0 * k == 0,
{
    assert(k == 1 ==> c0 * k == c0) by (nonlinear_arith);
    assert(k == -1 ==> c0 * k == -c0) by (nonlinear_arith);
    assert(k == 0 ==> c0 * k == 0) by (nonlinear_arith);
}

/// The pointer moves of a body are neither zero nor past `isize`.
pub open spec fn small_moves(body: Seq<NodModel>) -> bool {
    forall|k: int| 0 <= k < body.len() ==> match #[trigger] body[k] {
        NodModel::Instruction(Instruction::PtrIncrement(n)) => 0 < n <= isize::MAX,
        NodModel::Instruction(Instruction::PtrDecrement(n)) => 0 < n <= isize::MAX,
        _ => true,
    }
}

proof fn lemma_add_right_first(x: usize, t: Tape, f: nat)
    requires
        0 < x <= isize::MAX,
        run_nod(NodModel::Loop(instrs(seq![Instruction::Sub(0, Value::Const(1)), Instruction::PtrIncrement(x), Instruction::Add(0, Value::Const(1)), Instruction::PtrDecrement(x)])), t, f) is Some,
    ensures
        run_nod(NodModel::Loop(instrs(seq![Instruction::Sub(0, Value::Const(1)), Instruction::PtrIncrement(x), Instruction::Add(0, Value::Const(1)), Instruction::PtrDecrement(x)])), t, f)
            == run_nods(instrs(seq![Instruction::Add(x as isize, Value::Memory(0)), Instruction::SetValue(0, Value::Const(0))]), t, f),
{
    let s = seq![Instruction::Sub(0, Value::Const(1)), Instruction::PtrIncrement(x), Instruction::Add(0, Value::Const(1)), Instruction::PtrDecrement(x)];
    let rw = seq![Instruction::Add(x as isize, Value::Memory(0)), Instruction::SetValue(0, Value::Const(0))];
    let d = deltas(x as int, 1, 0, 0, 0, 0);
    assert forall|u: Tape| #[trigger] instructions_tape(s, u) == round_tape(d, u) by {
        reveal_with_fuel(instructions_tape, 5);
        let a = instructions_tape(s, u);
        let r = round_tape(d, u);
        assert forall|i: int| #[trigger] (a.mem)(i) == (r.mem)(i) by {
            lemma_wrap_byte((u.mem)(i));
        }
        assert(a.mem =~= r.mem);
        assert(a =~= r);
    }
    lemma_nod_counting_loop(s, d, t, f);
    lemma_instrs_runs(rw, t, f);
    let c0 = cell(t, 0);
    reveal_with_fuel(instructions_tape, 3);
    assert(rw.take(2).drop_last() =~= rw.take(1));
    assert(rw.take(1).drop_last() =~= rw.take(0));
    assert(rw.take(2) =~= rw);
    let a = instructions_tape(rw, t);
    let r = rounds_tape(d, t, c0 as int);
    assert forall|i: int| #[trigger] (a.mem)(i) == (r.mem)(i) by {
        lemma_wrap_byte((t.mem)(i));
        lemma_scale(c0 as int, d(i - t.ptr));
    }
    assert(a.mem =~= r.mem);
    assert(a =~= r);
}

proof fn lemma_add_right_last(x: usize, t: Tape, f: nat)
    requires
        0 < x <= isize::MAX,
        run_nod(NodModel::Loop(instrs(seq![Instruction::PtrIncrement(x), Instruction::Add(0, Value::Const(1)), Instruction::PtrDecrement(x), Instruction::Sub(0, Value::Const(1))])), t, f) is Some,
    ensures
        run_nod(NodModel::Loop(instrs(seq![Instruction::PtrIncrement(x), Instruction::Add(0, Value::Const(1)), Instruction::PtrDecrement(x), Instruction::Sub(0, Value::Const(1))])), t, f)
            == run_nods(instrs(seq![Instruction::Add(x as isize, Value::Memory(0)), Instruction::SetValue(0, Value::Const(0))]), t, f),
{
    let s = seq![Instruction::PtrIncrement(x), Instruction::Add(0, Value::Const(1)), Instruction::PtrDecrement(x), Instruction::Sub(0, Value::Const(1))];
    let rw = seq![Instruction::Add(x as isize, Value::Memory(0)), Instruction::SetValue(0, Value::Const(0))];
    let d = deltas(x as int, 1, 0, 0, 0, 0);
    assert forall|u: Tape| #[trigger] instructions_tape(s, u) == round_tape(d, u) by {
        reveal_with_fuel(instructions_tape, 5);
        let a = instructions_tape(s, u);
        let r = round_tape(d, u);
        assert forall|i: int| #[trigger] (a.mem)(i) == (r.mem)(i) by {
            lemma_wrap_byte((u.mem)(i));
        }
        assert(a.mem =~= r.mem);
        assert(a =~= r);
    }
    lemma_nod_counting_loop(s, d, t, f);
    lemma_instrs_runs(rw, t, f);
    let c0 = cell(t, 0);
    reveal_with_fuel(instructions_tape, 3);
    assert(rw.take(2).drop_last() =~= rw.take(1));
    assert(rw.take(1).drop_last() =~= rw.take(0));
    assert(rw.take(2) =~= rw);
    let a = instructions_tape(rw, t);
    let r = rounds_tape(d, t, c0 as int);
    assert forall|i: int| #[trigger] (a.mem)(i) == (r.mem)(i) by {
        lemma_wrap_byte((t.mem)(i));
        lemma_scale(c0 as int, d(i - t.ptr));
    }
    assert(a.mem =~= r.mem);
    assert(a =~= r);
}

proof fn lemma_add_left_first(x: usize, t: Tape, f: nat)
    requires
        0 < x <= isize::MAX,
        run_nod(NodModel::Loop(instrs(seq![Instruction::Sub(0, Value::Const(1)), Instruction::PtrDecrement(x), Instruction::Add(0, Value::Const(1)), Instruction::PtrIncrement(x)])), t, f) is Some,
    ensures
        run_nod(NodModel::Loop(instrs(seq![Instruction::Sub(0, Value::Const(1)), Instruction::PtrDecrement(x), Instruction::Add(0, Value::Const(1)), Instruction::PtrIncrement(x)])), t, f)
            == run_nods(instrs(seq![Instruction::Add(neg(x), Value::Memory(0)), Instruction::SetValue(0, Value::Const(0))]), t, f),
{
    let s = seq![Instruction::Sub(0, Value::Const(1)), Instruction::PtrDecrement(x), Instruction::Add(0, Value::Const(1)), Instruction::PtrIncrement(x)];
    let rw = seq![Instruction::Add(neg(x), Value::Memory(0)), Instruction::SetValue(0, Value::Const(0))];
    let d = deltas(-x, 1, 0, 0, 0, 0);
    assert forall|u: Tape| #[trigger] instructions_tape(s, u) == round_tape(d, u) by {
        reveal_with_fuel(instructions_tape, 5);
        let a = instructions_tape(s, u);
        let r = round_tape(d, u);
        assert forall|i: int| #[trigger] (a.mem)(i) == (r.mem)(i) by {
            lemma_wrap_byte((u.mem)(i));
        }
        assert(a.mem =~= r.mem);
        assert(a =~= r);
    }
    lemma_nod_counting_loop(s, d, t, f);
    lemma_instrs_runs(rw, t, f);
    let c0 = cell(t, 0);
    reveal_with_fuel(instructions_tape, 3);
    assert(rw.take(2).drop_last() =~= rw.take(1));
    assert(rw.take(1).drop_last() =~= rw.take(0));
    assert(rw.take(2) =~= rw);
    let a = instructions_tape(rw, t);
    let r = rounds_tape(d, t, c0 as int);
    assert forall|i: int| #[trigger] (a.mem)(i) == (r.mem)(i) by {
        lemma_wrap_byte((t.mem)(i));
        lemma_scale(c0 as int, d(i - t.ptr));
    }
    assert(a.mem =~= r.mem);
    assert(a =~= r);
}

proof fn lemma_add_left_last(x: usize, t: Tape, f: nat)
    requires
        0 < x <= isize::MAX,
        run_nod(NodModel::Loop(instrs(seq![Instruction::PtrDecrement(x), Instruction::Add(0, Value::Const(1)), Instruction::PtrIncrement(x), Instruction::Sub(0, Value::Const(1))])), t, f) is Some,
    ensures
        run_nod(NodModel::Loop(instrs(seq![Instruction::PtrDecrement(x), Instruction::Add(0, Value::Const(1)), Instruction::PtrIncrement(x), Instruction::Sub(0, Value::Const(1))])), t, f)
            == run_nods(instrs(seq![Instruction::Add(neg(x), Value::Memory(0)), Instruction::SetValue(0, Value::Const(0))]), t, f),
{
    let s = seq![Instruction::PtrDecrement(x), Instruction::Add(0, Value::Const(1)), Instruction::PtrIncrement(x), Instruction::Sub(0, Value::Const(1))];
    let rw = seq![Instruction::Add(neg(x), Value::Memory(0)), Instruction::SetValue(0, Value::Const(0))];
    let d = deltas(-x, 1, 0, 0, 0, 0);
    assert forall|u: Tape| #[trigger] instructions_tape(s, u) == round_tape(d, u) by {
        reveal_with_fuel(instructions_tape, 5);
        let a = instructions_tape(s, u);
        let r = round_tape(d, u);
        assert forall|i: int| #[trigger] (a.mem)(i) == (r.mem)(i) by {
            lemma_wrap_byte((u.mem)(i));
        }
        assert(a.mem =~= r.mem);
        assert(a =~= r);
    }
    lemma_nod_counting_loop(s, d, t, f);
    lemma_instrs_runs(rw, t, f);
    let c0 = cell(t, 0);
    reveal_with_fuel(instructions_tape, 3);
    assert(rw.take(2).drop_last() =~= rw.take(1));
    assert(rw.take(1).drop_last() =~= rw.take(0));
    assert(rw.take(2) =~= rw);
    let a = instructions_tape(rw, t);
    let r = rounds_tape(d, t, c0 as int);
    assert forall|i: int| #[trigger] (a.mem)(i) == (r.mem)(i) by {
        lemma_wrap_byte((t.mem)(i));
        lemma_scale(c0 as int, d(i - t.ptr));
    }
    assert(a.mem =~= r.mem);
    assert(a =~= r);
}

proof fn lemma_sub_right_first(x: usize, t: Tape, f: nat)
    requires
        0 < x <= isize::MAX,
        run_nod(NodModel::Loop(instrs(seq![Instruction::Sub(0, Value::Const(1)), Instruction::PtrIncrement(x), Instruction::Sub(0, Value::Const(1)), Instruction::PtrDecrement(x)])), t, f) is Some,
    ensures
        run_nod(NodModel::Loop(instrs(seq![Instruction::Sub(0, Value::Const(1)), Instruction::PtrIncrement(x), Instruction::Sub(0, Value::Const(1)), Instruction::PtrDecrement(x)])), t, f)
            == run_nods(instrs(seq![Instruction::Sub(x as isize, Value::Memory(0)), Instruction::SetValue(0, Value::Const(0))]), t, f),
{
    let s = seq![Instruction::Sub(0, Value::Const(1)), Instruction::PtrIncrement(x), Instruction::Sub(0, Value::Const(1)), Instruction::PtrDecrement(x)];
    let rw = seq![Instruction::Sub(x as isize, Value::Memory(0)), Instruction::SetValue(0, Value::Const(0))];
    let d = deltas(x as int, -1, 0, 0, 0, 0);
    assert forall|u: Tape| #[trigger] instructions_tape(s, u) == round_tape(d, u) by {
        reveal_with_fuel(instructions_tape, 5);
        let a = instructions_tape(s, u);
        let r = round_tape(d, u);
        assert forall|i: int| #[trigger] (a.mem)(i) == (r.mem)(i) by {
            lemma_wrap_byte((u.mem)(i));
        }
        assert(a.mem =~= r.mem);
        assert(a =~= r);
    }
    lemma_nod_counting_loop(s, d, t, f);
    lemma_instrs_runs(rw, t, f);
    let c0 = cell(t, 0);
    reveal_with_fuel(instructions_tape, 3);
    assert(rw.take(2).drop_last() =~= rw.take(1));
    assert(rw.take(1).drop_last() =~= rw.take(0));
    assert(rw.take(2) =~= rw);
    let a = instructions_tape(rw, t);
    let r = rounds_tape(d, t, c0 as int);
    assert forall|i: int| #[trigger] (a.mem)(i) == (r.mem)(i) by {
        lemma_wrap_byte((t.mem)(i));
        lemma_scale(c0 as int, d(i - t.ptr));
    }
    assert(a.mem =~= r.mem);
    assert(a =~= r);
}

proof fn lemma_sub_right_last(x: usize, t: Tape, f: nat)
    requires
        0 < x <= isize::MAX,
        run_nod(NodModel::Loop(instrs(seq![Instruction::PtrIncrement(x), Instruction::Sub(0, Value::Const(1)), Instruction::PtrDecrement(x), Instruction::Sub(0, Value::Const(1))])), t, f) is Some,
    ensures
        run_nod(NodModel::Loop(instrs(seq![Instruction::PtrIncrement(x), Instruction::Sub(0, Value::Const(1)), Instruction::PtrDecrement(x), Instruction::Sub(0, Value::Const(1))])), t, f)
            == run_nods(instrs(seq![Instruction::Sub(x as isize, Value::Memory(0)), Instruction::SetValue(0, Value::Const(0))]), t, f),
{
    let s = seq![Instruction::PtrIncrement(x), Instruction::Sub(0, Value::Const(1)), Instruction::PtrDecrement(x), Instruction::Sub(0, Value::Const(1))];
    let rw = seq![Instruction::Sub(x as isize, Value::Memory(0)), Instruction::SetValue(0, Value::Const(0))];
    let d = deltas(x as int, -1, 0, 0, 0, 0);
    assert forall|u: Tape| #[trigger] instructions_tape(s, u) == round_tape(d, u) by {
        reveal_with_fuel(instructions_tape, 5);
        let a = instructions_tape(s, u);
        let r = round_tape(d, u);
        assert forall|i: int| #[trigger] (a.mem)(i) == (r.mem)(i) by {
            lemma_wrap_byte((u.mem)(i));
        }
        assert(a.mem =~= r.mem);
        assert(a =~= r);
    }
    lemma_nod_counting_loop(s, d, t, f);
    lemma_instrs_runs(rw, t, f);
    let c0 = cell(t, 0);
    reveal_with_fuel(instructions_tape, 3);
    assert(rw.take(2).drop_last() =~= rw.take(1));
    assert(rw.take(1).drop_last() =~= rw.take(0));
    assert(rw.take(2) =~= rw);
    let a = instructions_tape(rw, t);
    let r = rounds_tape(d, t, c0 as int);
    assert forall|i: int| #[trigger] (a.mem)(i) == (r.mem)(i) by {
        lemma_wrap_byte((t.mem)(i));
        lemma_scale(c0 as int, d(i - t.ptr));
    }
    assert(a.mem =~= r.mem);
    assert(a =~= r);
}

proof fn lemma_sub_left_first(x: usize, t: Tape, f: nat)
    requires
        0 < x <= isize::MAX,
        run_nod(NodModel::Loop(instrs(seq![Instruction::Sub(0, Value::Const(1)), Instruction::PtrDecrement(x), Instruction::Sub(0, Value::Const(1)), Instruction::PtrIncrement(x)])), t, f) is Some,
    ensures
        run_nod(NodModel::Loop(instrs(seq![Instruction::Sub(0, Value::Const(1)), Instruction::PtrDecrement(x), Instruction::Sub(0, Value::Const(1)), Instruction::PtrIncrement(x)])), t, f)
            == run_nods(instrs(seq![Instruction::Sub(neg(x), Value::Memory(0)), Instruction::SetValue(0, Value::Const(0))]), t, f),
{
    let s = seq![Instruction::Sub(0, Value::Const(1)), Instruction::PtrDecrement(x), Instruction::Sub(0, Value::Const(1)), Instruction::PtrIncrement(x)];
    let rw = seq![Instruction::Sub(neg(x), Value::Memory(0)), Instruction::SetValue(0, Value::Const(0))];
    let d = deltas(-x, -1, 0, 0, 0, 0);
    assert forall|u: Tape| #[trigger] instructions_tape(s, u) == round_tape(d, u) by {
        reveal_with_fuel(instructions_tape, 5);
        let a = instructions_tape(s, u);
        let r = round_tape(d, u);
        assert forall|i: int| #[trigger] (a.mem)(i) == (r.mem)(i) by {
            lemma_wrap_byte((u.mem)(i));
        }
        assert(a.mem =~= r.mem);
        assert(a =~= r);
    }
    lemma_nod_counting_loop(s, d, t, f);
    lemma_instrs_runs(rw, t, f);
    let c0 = cell(t, 0);
    reveal_with_fuel(instructions_tape, 3);
    assert(rw.take(2).drop_last() =~= rw.take(1));
    assert(rw.take(1).drop_last() =~= rw.take(0));
    assert(rw.take(2) =~= rw);
    let a = instructions_tape(rw, t);
    let r = rounds_tape(d, t, c0 as int);
    assert forall|i: int| #[trigger] (a.mem)(i) == (r.mem)(i) by {
        lemma_wrap_byte((t.mem)(i));
        lemma_scale(c0 as int, d(i - t.ptr));
    }
    assert(a.mem =~= r.mem);
    assert(a =~= r);
}

proof fn lemma_sub_left_last(x: usize, t: Tape, f: nat)
    requires
        0 < x <= isize::MAX,
        run_nod(NodModel::Loop(instrs(seq![Instruction::PtrDecrement(x), Instruction::Sub(0, Value::Const(1)), Instruction::PtrIncrement(x), Instruction::Sub(0, Value::Const(1))])), t, f) is Some,
    ensures
        run_nod(NodModel::Loop(instrs(seq![Instruction::PtrDecrement(x), Instruction::Sub(0, Value::Const(1)), Instruction::PtrIncrement(x), Instruction::Sub(0, Value::Const(1))])), t, f)
            == run_nods(instrs(seq![Instruction::Sub(neg(x), Value::Memory(0)), Instruction::SetValue(0, Value::Const(0))]), t, f),
{
    let s = seq![Instruction::PtrDecrement(x), Instruction::Sub(0, Value::Const(1)), Instruction::PtrIncrement(x), Instruction::Sub(0, Value::Const(1))];
    let rw = seq![Instruction::Sub(neg(x), Value::Memory(0)), Instruction::SetValue(0, Value::Const(0))];
    let d = deltas(-x, -1, 0, 0, 0, 0);
    assert forall|u: Tape| #[trigger] instructions_tape(s, u) == round_tape(d, u) by {
        reveal_with_fuel(instructions_tape, 5);
        let a = instructions_tape(s, u);
        let r = round_tape(d, u);
        assert forall|i: int| #[trigger] (a.mem)(i) == (r.mem)(i) by {
            lemma_wrap_byte((u.mem)(i));
        }
        assert(a.mem =~= r.mem);
        assert(a =~= r);
    }
    lemma_nod_counting_loop(s, d, t, f);
    lemma_instrs_runs(rw, t, f);
    let c0 = cell(t, 0);
    reveal_with_fuel(instructions_tape, 3);
    assert(rw.take(2).drop_last() =~= rw.take(1));
    assert(rw.take(1).drop_last() =~= rw.take(0));
    assert(rw.take(2) =~= rw);
    let a = instructions_tape(rw, t);
    let r = rounds_tape(d, t, c0 as int);
    assert forall|i: int| #[trigger] (a.mem)(i) == (r.mem)(i) by {
        lemma_wrap_byte((t.mem)(i));
        lemma_scale(c0 as int, d(i - t.ptr));
    }
    assert(a.mem =~= r.mem);
    assert(a =~= r);
}

proof fn lemma_copy_right(x: usize, y: usize, z: usize, t: Tape, f: nat)
    requires
        0 < x <= isize::MAX, 0 < y, z <= isize::MAX, x + y == z,
        run_nod(NodModel::Loop(instrs(seq![Instruction::Sub(0, Value::Const(1)), Instruction::PtrIncrement(x), Instruction::Add(0, Value::Const(1)), Instruction::PtrIncrement(y), Instruction::Add(0, Value::Const(1)), Instruction::PtrDecrement(z)])), t, f) is Some,
    ensures
        run_nod(NodModel::Loop(instrs(seq![Instruction::Sub(0, Value::Const(1)), Instruction::PtrIncrement(x), Instruction::Add(0, Value::Const(1)), Instruction::PtrIncrement(y), Instruction::Add(0, Value::Const(1)), Instruction::PtrDecrement(z)])), t, f)
            == run_nods(instrs(seq![Instruction::Add(x as isize, Value::Memory(0)), Instruction::Add(z as isize, Value::Memory(0)), Instruction::SetValue(0, Value::Const(0))]), t, f),
{
    let s = seq![Instruction::Sub(0, Value::Const(1)), Instruction::PtrIncrement(x), Instruction::Add(0, Value::Const(1)), Instruction::PtrIncrement(y), Instruction::Add(0, Value::Const(1)), Instruction::PtrDecrement(z)];
    let rw = seq![Instruction::Add(x as isize, Value::Memory(0)), Instruction::Add(z as isize, Value::Memory(0)), Instruction::SetValue(0, Value::Const(0))];
    let d = deltas(x as int, 1, z as int, 1, 0, 0);
    assert forall|u: Tape| #[trigger] instructions_tape(s, u) == round_tape(d, u) by {
        reveal_with_fuel(instructions_tape, 7);
        let a = instructions_tape(s, u);
        let r = round_tape(d, u);
        assert forall|i: int| #[trigger] (a.mem)(i) == (r.mem)(i) by {
            lemma_wrap_byte((u.mem)(i));
        }
        assert(a.mem =~= r.mem);
        assert(a =~= r);
    }
    lemma_nod_counting_loop(s, d, t, f);
    lemma_instrs_runs(rw, t, f);
    let c0 = cell(t, 0);
    reveal_with_fuel(instructions_tape, 4);
    assert(rw.take(3).drop_last() =~= rw.take(2));
    assert(rw.take(2).drop_last() =~= rw.take(1));
    assert(rw.take(1).drop_last() =~= rw.take(0));
    assert(rw.take(3) =~= rw);
    let a = instructions_tape(rw, t);
    let r = rounds_tape(d, t, c0 as int);
    assert forall|i: int| #[trigger] (a.mem)(i) == (r.mem)(i) by {
        lemma_wrap_byte((t.mem)(i));
        lemma_scale(c0 as int, d(i - t.ptr));
    }
    assert(a.mem =~= r.mem);
    assert(a =~= r);
}

proof fn lemma_copy_left(x: usize, y: usize, z: usize, t: Tape, f: nat)
    requires
        0 < x, 0 < y, z <= isize::MAX, x + y == z,
        run_nod(NodModel::Loop(instrs(seq![Instruction::Sub(0, Value::Const(1)), Instruction::PtrDecrement(x), Instruction::Add(0, Value::Const(1)), Instruction::PtrDecrement(y), Instruction::Add(0, Value::Const(1)), Instruction::PtrIncrement(z)])), t, f) is Some,
    ensures
        run_nod(NodModel::Loop(instrs(seq![Instruction::Sub(0, Value::Const(1)), Instruction::PtrDecrement(x), Instruction::Add(0, Value::Const(1)), Instruction::PtrDecrement(y), Instruction::Add(0, Value::Const(1)), Instruction::PtrIncrement(z)])), t, f)
            == run_nods(instrs(seq![Instruction::Add(neg(x), Value::Memory(0)), Instruction::Add(neg(z), Value::Memory(0)), Instruction::SetValue(0, Value::Const(0))]), t, f),
{
    let s = seq![Instruction::Sub(0, Value::Const(1)), Instruction::PtrDecrement(x), Instruction::Add(0, Value::Const(1)), Instruction::PtrDecrement(y), Instruction::Add(0, Value::Const(1)), Instruction::PtrIncrement(z)];
    let rw = seq![Instruction::Add(neg(x), Value::Memory(0)), Instruction::Add(neg(z), Value::Memory(0)), Instruction::SetValue(0, Value::Const(0))];
    let d = deltas(-x, 1, -z, 1, 0, 0);
    assert forall|u: Tape| #[trigger] instructions_tape(s, u) == round_tape(d, u) by {
        reveal_with_fuel(instructions_tape, 7);
        let a = instructions_tape(s, u);
        let r = round_tape(d, u);
        assert forall|i: int| #[trigger] (a.mem)(i) == (r.mem)(i) by {
            lemma_wrap_byte((u.mem)(i));
        }
        assert(a.mem =~= r.mem);
        assert(a =~= r);
    }
    lemma_nod_counting_loop(s, d, t, f);
    lemma_instrs_runs(rw, t, f);
    let c0 = cell(t, 0);
    reveal_with_fuel(instructions_tape, 4);
    assert(rw.take(3).drop_last() =~= rw.take(2));
    assert(rw.take(2).drop_last() =~= rw.take(1));
    assert(rw.take(1).drop_last() =~= rw.take(0));
    assert(rw.take(3) =~= rw);
    let a = instructions_tape(rw, t);
    let r = rounds_tape(d, t, c0 as int);
    assert forall|i: int| #[trigger] (a.mem)(i) == (r.mem)(i) by {
        lemma_wrap_byte((t.mem)(i));
        lemma_scale(c0 as int, d(i - t.ptr));
    }
    assert(a.mem =~= r.mem);
    assert(a =~= r);
}

proof fn lemma_copy_left_back(x: usize, y: usize, z: usize, t: Tape, f: nat)
    requires
        0 < x <= isize::MAX, 0 < y, 0 < z, x == y + z,
        run_nod(NodModel::Loop(instrs(seq![Instruction::Sub(0, Value::Const(1)), Instruction::PtrDecrement(x), Instruction::Add(0, Value::Const(1)), Instruction::PtrIncrement(y), Instruction::Add(0, Value::Const(1)), Instruction::PtrIncrement(z)])), t, f) is Some,
    ensures
        run_nod(NodModel::Loop(instrs(seq![Instruction::Sub(0, Value::Const(1)), Instruction::PtrDecrement(x), Instruction::Add(0, Value::Const(1)), Instruction::PtrIncrement(y), Instruction::Add(0, Value::Const(1)), Instruction::PtrIncrement(z)])), t, f)
            == run_nods(instrs(seq![Instruction::Add(neg(x), Value::Memory(0)), Instruction::Add(neg((x - y) as usize), Value::Memory(0)), Instruction::SetValue(0, Value::Const(0))]), t, f),
{
    let s = seq![Instruction::Sub(0, Value::Const(1)), Instruction::PtrDecrement(x), Instruction::Add(0, Value::Const(1)), Instruction::PtrIncrement(y), Instruction::Add(0, Value::Const(1)), Instruction::PtrIncrement(z)];
    let rw = seq![Instruction::Add(neg(x), Value::Memory(0)), Instruction::Add(neg((x - y) as usize), Value::Memory(0)), Instruction::SetValue(0, Value::Const(0))];
    let d = deltas(-x, 1, y - x, 1, 0, 0);
    assert forall|u: Tape| #[trigger] instructions_tape(s, u) == round_tape(d, u) by {
        reveal_with_fuel(instructions_tape, 7);
        let a = instructions_tape(s, u);
        let r = round_tape(d, u);
        assert forall|i: int| #[trigger] (a.mem)(i) == (r.mem)(i) by {
            lemma_wrap_byte((u.mem)(i));
        }
        assert(a.mem =~= r.mem);
        assert(a =~= r);
    }
    lemma_nod_counting_loop(s, d, t, f);
    lemma_instrs_runs(rw, t, f);
    let c0 = cell(t, 0);
    reveal_with_fuel(instructions_tape, 4);
    assert(rw.take(3).drop_last() =~= rw.take(2));
    assert(rw.take(2).drop_last() =~= rw.take(1));
    assert(rw.take(1).drop_last() =~= rw.take(0));
    assert(rw.take(3) =~= rw);
    let a = instructions_tape(rw, t);
    let r = rounds_tape(d, t, c0 as int);
    assert forall|i: int| #[trigger] (a.mem)(i) == (r.mem)(i) by {
        lemma_wrap_byte((t.mem)(i));
        lemma_scale(c0 as int, d(i - t.ptr));
    }
    assert(a.mem =~= r.mem);
    assert(a =~= r);
}

proof fn lemma_sub_add_shape(x: usize, z: usize, t: Tape, f: nat)
    requires
        0 < x <= isize::MAX, 0 < z <= isize::MAX,
        run_nod(NodModel::Loop(instrs(seq![Instruction::PtrDecrement(x), Instruction::Sub(0, Value::Const(1)), Instruction::PtrIncrement(x), Instruction::Sub(0, Value::Const(1)), Instruction::PtrDecrement(z), Instruction::Add(0, Value::Const(1)), Instruction::PtrIncrement(z)])), t, f) is Some,
    ensures
        run_nod(NodModel::Loop(instrs(seq![Instruction::PtrDecrement(x), Instruction::Sub(0, Value::Const(1)), Instruction::PtrIncrement(x), Instruction::Sub(0, Value::Const(1)), Instruction::PtrDecrement(z), Instruction::Add(0, Value::Const(1)), Instruction::PtrIncrement(z)])), t, f)
            == run_nods(instrs(seq![Instruction::Sub(neg(x), Value::Memory(0)), Instruction::Add(neg(z), Value::Memory(0)), Instruction::SetValue(0, Value::Const(0))]), t, f),
{
    let s = seq![Instruction::PtrDecrement(x), Instruction::Sub(0, Value::Const(1)), Instruction::PtrIncrement(x), Instruction::Sub(0, Value::Const(1)), Instruction::PtrDecrement(z), Instruction::Add(0, Value::Const(1)), Instruction::PtrIncrement(z)];
    let rw = seq![Instruction::Sub(neg(x), Value::Memory(0)), Instruction::Add(neg(z), Value::Memory(0)), Instruction::SetValue(0, Value::Const(0))];
    let d = deltas(-x, -1, -z, 1, 0, 0);
    assert forall|u: Tape| #[trigger] instructions_tape(s, u) == round_tape(d, u) by {
        reveal_with_fuel(instructions_tape, 8);
        let a = instructions_tape(s, u);
        let r = round_tape(d, u);
        assert forall|i: int| #[trigger] (a.mem)(i) == (r.mem)(i) by {
            lemma_wrap_byte((u.mem)(i));
        }
        assert(a.mem =~= r.mem);
        assert(a =~= r);
    }
    lemma_nod_counting_loop(s, d, t, f);
    lemma_instrs_runs(rw, t, f);
    let c0 = cell(t, 0);
    reveal_with_fuel(instructions_tape, 4);
    assert(rw.take(3).drop_last() =~= rw.take(2));
    assert(rw.take(2).drop_last() =~= rw.take(1));
    assert(rw.take(1).drop_last() =~= rw.take(0));
    assert(rw.take(3) =~= rw);
    let a = instructions_tape(rw, t);
    let r = rounds_tape(d, t, c0 as int);
    assert forall|i: int| #[trigger] (a.mem)(i) == (r.mem)(i) by {
        lemma_wrap_byte((t.mem)(i));
        lemma_scale(c0 as int, d(i - t.ptr));
    }
    assert(a.mem =~= r.mem);
    assert(a =~= r);
}

proof fn lemma_body_is(body: Seq<NodModel>, s: Seq<Instruction>)
    requires
        body.len() == s.len(),
        forall|k: int| 0 <= k < s.len() ==> ins_at(body, k) == Some(#[trigger] s[k]),
    ensures
        body == instrs(s),
{
    assert forall|k: int| 0 <= k < s.len() implies body[k] == #[trigger] instrs(s)[k] by {
        assert(ins_at(body, k) == Some(s[k]));
    }
    assert(body =~= instrs(s));
}

proof fn lemma_move_bound(body: Seq<NodModel>, k: int)
    requires
        small_moves(body),
        0 <= k < body.len(),
    ensures
        ins_at(body, k) matches Some(Instruction::PtrIncrement(n)) ==> 0 < n <= isize::MAX,
        ins_at(body, k) matches Some(Instruction::PtrDecrement(n)) ==> 0 < n <= isize::MAX,
{
    assert(match body[k] {
        NodModel::Instruction(Instruction::PtrIncrement(n)) => 0 < n <= isize::MAX,
        NodModel::Instruction(Instruction::PtrDecrement(n)) => 0 < n <= isize::MAX,
        _ => true,
    });
}

/// `[->>>+<<<]` adds the cell to the one `x` to the right (or left, for `[-<<<+>>>]`) and clears
/// it: the rewritten instructions do what the loop does, when it finishes.
pub proof fn lemma_add_rule_keeps_runs(n: NodModel, t: Tape, f: nat)
    requires
        add_rule(n) is Some,
        small_moves(loop_body(n)->0),
        run_nod(n, t, f) is Some,
    ensures
        run_nod(n, t, f) == run_nods(add_rule(n)->0, t, f),
{
    let b = loop_body(n)->0;
    lemma_move_bound(b, 0);
    lemma_move_bound(b, 1);
    if ins_at(b, 0) == Some(Instruction::Sub(0, Value::Const(1))) {
        if ins_at(b, 1) matches Some(Instruction::PtrIncrement(_)) {
            let x = ins_at(b, 1)->0->PtrIncrement_0;
            lemma_body_is(b, seq![Instruction::Sub(0, Value::Const(1)), Instruction::PtrIncrement(x), Instruction::Add(0, Value::Const(1)), Instruction::PtrDecrement(x)]);
            lemma_add_right_first(x, t, f);
        } else {
            let x = ins_at(b, 1)->0->PtrDecrement_0;
            lemma_body_is(b, seq![Instruction::Sub(0, Value::Const(1)), Instruction::PtrDecrement(x), Instruction::Add(0, Value::Const(1)), Instruction::PtrIncrement(x)]);
            lemma_add_left_first(x, t, f);
        }
    } else {
        if ins_at(b, 0) matches Some(Instruction::PtrIncrement(_)) {
            let x = ins_at(b, 0)->0->PtrIncrement_0;
            lemma_body_is(b, seq![Instruction::PtrIncrement(x), Instruction::Add(0, Value::Const(1)), Instruction::PtrDecrement(x), Instruction::Sub(0, Value::Const(1))]);
            lemma_add_right_last(x, t, f);
        } else {
            let x = ins_at(b, 0)->0->PtrDecrement_0;
            lemma_body_is(b, seq![Instruction::PtrDecrement(x), Instruction::Add(0, Value::Const(1)), Instruction::PtrIncrement(x), Instruction::Sub(0, Value::Const(1))]);
            lemma_add_left_last(x, t, f);
        }
    }
}

/// `[->>>-<<<]` takes the cell off the one `x` to the right (or left, for `[-<<<->>>]`) and
/// clears it: the rewritten instructions do what the loop does, when it finishes.
pub proof fn lemma_sub_rule_keeps_runs(n: NodModel, t: Tape, f: nat)
    requires
        sub_rule(n) is Some,
        small_moves(loop_body(n)->0),
        run_nod(n, t, f) is Some,
    ensures
        run_nod(n, t, f) == run_nods(sub_rule(n)->0, t, f),
{
    let b = loop_body(n)->0;
    lemma_move_bound(b, 0);
    lemma_move_bound(b, 1);
    if ins_at(b, 0) == Some(Instruction::Sub(0, Value::Const(1))) {
        if ins_at(b, 1) matches Some(Instruction::PtrIncrement(_)) {
            let x = ins_at(b, 1)->0->PtrIncrement_0;
            lemma_body_is(b, seq![Instruction::Sub(0, Value::Const(1)), Instruction::PtrIncrement(x), Instruction::Sub(0, Value::Const(1)), Instruction::PtrDecrement(x)]);
            lemma_sub_right_first(x, t, f);
        } else {
            let x = ins_at(b, 1)->0->PtrDecrement_0;
            lemma_body_is(b, seq![Instruction::Sub(0, Value::Const(1)), Instruction::PtrDecrement(x), Instruction::Sub(0, Value::Const(1)), Instruction::PtrIncrement(x)]);
            lemma_sub_left_first(x, t, f);
        }
    } else {
        if ins_at(b, 0) matches Some(Instruction::PtrIncrement(_)) {
            let x = ins_at(b, 0)->0->PtrIncrement_0;
            lemma_body_is(b, seq![Instruction::PtrIncrement(x), Instruction::Sub(0, Value::Const(1)), Instruction::PtrDecrement(x), Instruction::Sub(0, Value::Const(1))]);
            lemma_sub_right_last(x, t, f);
        } else {
            let x = ins_at(b, 0)->0->PtrDecrement_0;
            lemma_body_is(b, seq![Instruction::PtrDecrement(x), Instruction::Sub(0, Value::Const(1)), Instruction::PtrIncrement(x), Instruction::Sub(0, Value::Const(1))]);
            lemma_sub_left_last(x, t, f);
        }
    }
}

/// `[->+>+<<]` (and its mirrored forms) copies the cell into two others and clears it: the
/// rewritten instructions do what the loop does, when it finishes.
pub proof fn lemma_copy_rule_keeps_runs(n: NodModel, t: Tape, f: nat)
    requires
        copy_rule(n) is Some,
        small_moves(loop_body(n)->0),
        run_nod(n, t, f) is Some,
    ensures
        run_nod(n, t, f) == run_nods(copy_rule(n)->0, t, f),
{
    let b = loop_body(n)->0;
    lemma_move_bound(b, 1);
    lemma_move_bound(b, 3);
    lemma_move_bound(b, 5);
    if ins_at(b, 1) matches Some(Instruction::PtrIncrement(_)) {
        let (x, y, z) = (ins_at(b, 1)->0->PtrIncrement_0, ins_at(b, 3)->0->PtrIncrement_0, ins_at(b, 5)->0->PtrDecrement_0);
        lemma_body_is(b, seq![Instruction::Sub(0, Value::Const(1)), Instruction::PtrIncrement(x), Instruction::Add(0, Value::Const(1)), Instruction::PtrIncrement(y), Instruction::Add(0, Value::Const(1)), Instruction::PtrDecrement(z)]);
        lemma_copy_right(x, y, z, t, f);
    } else if ins_at(b, 3) matches Some(Instruction::PtrDecrement(_)) {
        let (x, y, z) = (ins_at(b, 1)->0->PtrDecrement_0, ins_at(b, 3)->0->PtrDecrement_0, ins_at(b, 5)->0->PtrIncrement_0);
        lemma_body_is(b, seq![Instruction::Sub(0, Value::Const(1)), Instruction::PtrDecrement(x), Instruction::Add(0, Value::Const(1)), Instruction::PtrDecrement(y), Instruction::Add(0, Value::Const(1)), Instruction::PtrIncrement(z)]);
        lemma_copy_left(x, y, z, t, f);
    } else {
        let (x, y, z) = (ins_at(b, 1)->0->PtrDecrement_0, ins_at(b, 3)->0->PtrIncrement_0, ins_at(b, 5)->0->PtrIncrement_0);
        lemma_body_is(b, seq![Instruction::Sub(0, Value::Const(1)), Instruction::PtrDecrement(x), Instruction::Add(0, Value::Const(1)), Instruction::PtrIncrement(y), Instruction::Add(0, Value::Const(1)), Instruction::PtrIncrement(z)]);
        lemma_copy_left_back(x, y, z, t, f);
    }
}

/// `[<->-<+>]` takes the cell off one cell to its left, adds it to another and clears it: the
/// rewritten instructions do what the loop does, when it finishes.
pub proof fn lemma_sub_add_rule_keeps_runs(n: NodModel, t: Tape, f: nat)
    requires
        sub_add_rule(n) is Some,
        small_moves(loop_body(n)->0),
        run_nod(n, t, f) is Some,
    ensures
        run_nod(n, t, f) == run_nods(sub_add_rule(n)->0, t, f),
{
    let b = loop_body(n)->0;
    lemma_move_bound(b, 0);
    lemma_move_bound(b, 4);
    let (x, z) = (ins_at(b, 0)->0->PtrDecrement_0, ins_at(b, 4)->0->PtrDecrement_0);
    lemma_body_is(b, seq![Instruction::PtrDecrement(x), Instruction::Sub(0, Value::Const(1)), Instruction::PtrIncrement(x), Instruction::Sub(0, Value::Const(1)),
        Instruction::PtrDecrement(z), Instruction::Add(0, Value::Const(1)), Instruction::PtrIncrement(z)]);
    lemma_sub_add_shape(x, z, t, f);
}

proof fn lemma_nod_count_up(t: Tape, f: nat)
    requires
        run_nod(NodModel::Loop(instrs(seq![Instruction::Add(0, Value::Const(1))])), t, f) is Some,
    ensures
        run_nod(NodModel::Loop(instrs(seq![Instruction::Add(0, Value::Const(1))])), t, f) == Some(with_cell(t, t.ptr, 0)),
    decreases f,
{
    let s = seq![Instruction::Add(0, Value::Const(1))];
    if cell(t, 0) == 0 {
        assert(with_cell(t, t.ptr, 0).mem =~= t.mem);
        assert(with_cell(t, t.ptr, 0) =~= t);
    } else {
        let g = (f - 1) as nat;
        lemma_instrs_runs(s, t, g);
        assert(s.drop_last() =~= Seq::<Instruction>::empty());
        reveal_with_fuel(instructions_tape, 2);
        let t2 = instructions_tape(s, t);
        lemma_nod_count_up(t2, g);
        assert(with_cell(t2, t2.ptr, 0).mem =~= with_cell(t, t.ptr, 0).mem);
        assert(with_cell(t2, t2.ptr, 0) =~= with_cell(t, t.ptr, 0));
    }
}

/// `[-]` (or `[+]`) clears its cell: `SetValue(0, 0)` does what the loop does, when it
/// finishes. The loop must step its own cell.
pub proof fn lemma_zeroset_rule_keeps_runs(n: NodModel, t: Tape, f: nat)
    requires
        zeroset_rule(n) is Some,
        ins_at(loop_body(n)->0, 0) == Some(Instruction::Add(0, Value::Const(1)))
            || ins_at(loop_body(n)->0, 0) == Some(Instruction::Sub(0, Value::Const(1))),
        run_nod(n, t, f) is Some,
    ensures
        run_nod(n, t, f) == run_nods(zeroset_rule(n)->0, t, f),
{
    let b = loop_body(n)->0;
    let rw = seq![Instruction::SetValue(0, Value::Const(0))];
    lemma_instrs_runs(rw, t, f);
    assert(rw.drop_last() =~= Seq::<Instruction>::empty());
    reveal_with_fuel(instructions_tape, 2);
    assert(instructions_tape(rw, t) =~= with_cell(t, t.ptr, 0));
    if ins_at(b, 0) == Some(Instruction::Add(0, Value::Const(1))) {
        lemma_body_is(b, seq![Instruction::Add(0, Value::Const(1))]);
        lemma_nod_count_up(t, f);
    } else {
        let s = seq![Instruction::Sub(0, Value::Const(1))];
        lemma_body_is(b, s);
        let d = deltas(0, 0, 0, 0, 0, 0);
        assert forall|u: Tape| #[trigger] instructions_tape(s, u) == round_tape(d, u) by {
            assert(s.drop_last() =~= Seq::<Instruction>::empty());
            let a = instructions_tape(s, u);
            let r = round_tape(d, u);
            assert forall|i: int| #[trigger] (a.mem)(i) == (r.mem)(i) by {
                lemma_wrap_byte((u.mem)(i));
            }
            assert(a.mem =~= r.mem);
            assert(a =~= r);
        }
        lemma_nod_counting_loop(s, d, t, f);
        let c0 = cell(t, 0);
        let a = with_cell(t, t.ptr, 0);
        let r = rounds_tape(d, t, c0 as int);
        assert forall|i: int| #[trigger] (a.mem)(i) == (r.mem)(i) by {
            lemma_wrap_byte((t.mem)(i));
            lemma_scale(c0 as int, d(i - t.ptr));
        }
        assert(a.mem =~= r.mem);
        assert(a =~= r);
    }
}

/// What the additions of constants in a body add to the cell at offset `k`, in all.
pub open spec fn add_total(body: Seq<NodModel>, k: int) -> int
    decreases body.len(),
{
    if body.len() == 0 {
        0
    } else {
        add_total(body.drop_last(), k) + match ins_at(body, body.len() - 1) {
            Some(Instruction::Add(o, Value::Const(v))) => if o == k { v as int } else { 0 },
            _ => 0,
        }
    }
}

/// How many times a body takes one from its cell.
pub open spec fn counter_steps(body: Seq<NodModel>) -> int
    decreases body.len(),
{
    if body.len() == 0 {
        0
    } else {
        counter_steps(body.drop_last()) + if ins_at(body, body.len() - 1) == Some(Instruction::Sub(0, Value::Const(1))) { 1int } else { 0 }
    }
}

pub open spec fn body_deltas(body: Seq<NodModel>) -> spec_fn(int) -> int {
    |k: int| add_total(body, k) - if k == 0 { counter_steps(body) } else { 0 }
}

/// No addition of a constant in the body is to the counter.
pub open spec fn adds_off_counter(body: Seq<NodModel>) -> bool {
    forall|k: int| 0 <= k < body.len() ==> !(#[trigger] ins_at(body, k) matches Some(Instruction::Add(0, _)))
}

proof fn lemma_ins_at_prefix(body: Seq<NodModel>, k: int)
    requires
        0 <= k < body.len() - 1,
    ensures
        ins_at(body.drop_last(), k) == ins_at(body, k),
{
}

proof fn lemma_fold_round(body: Seq<NodModel>, u: Tape, g: nat)
    requires
        loop_fold(body) is Some,
    ensures
        run_nods(body, u, g) == Some(round_tape(body_deltas(body), u)),
    decreases body.len(),
{
    let d = body_deltas(body);
    if body.len() == 0 {
        assert(round_tape(d, u).mem =~= u.mem) by {
            assert forall|i: int| #[trigger] (round_tape(d, u).mem)(i) == (u.mem)(i) by {
                lemma_wrap_byte((u.mem)(i));
            }
        }
        assert(round_tape(d, u) =~= u);
    } else {
        let front = body.drop_last();
        lemma_fold_round(front, u, g);
        let d0 = body_deltas(front);
        let u1 = round_tape(d0, u);
        let i = ins_at(body, body.len() - 1)->0;
        assert(body.last() == NodModel::Instruction(i));
        assert(run_nods(body, u, g) == run_nod(body.last(), u1, g));
        let a = run_instruction(i, u1);
        let r = round_tape(d, u);
        assert forall|j: int| #[trigger] (a.mem)(j) == (r.mem)(j) by {
            let m = (u.mem)(j);
            lemma_wrap_add(m + d0(j - u.ptr), d(j - u.ptr) - d0(j - u.ptr));
        }
        assert(a.mem =~= r.mem);
        assert(a =~= r);
    }
}

/// The additions of the counter that the fold puts in front: each cell but the counter gains
/// the counter times its total.
proof fn lemma_fold_front(body: Seq<NodModel>, t: Tape)
    requires
        loop_fold(body) is Some,
        adds_off_counter(body),
    ensures
        instructions_tape((loop_fold(body)->0).0, t) == (Tape {
            mem: |i: int| if i == t.ptr { (t.mem)(i) } else { wrap((t.mem)(i) + cell(t, 0) * add_total(body, i - t.ptr)) },
            ..t
        }),
    decreases body.len(),
{
    let c0 = cell(t, 0);
    let r = Tape {
        mem: |i: int| if i == t.ptr { (t.mem)(i) } else { wrap((t.mem)(i) + c0 * add_total(body, i - t.ptr)) },
        ..t
    };
    if body.len() == 0 {
        assert forall|i: int| #[trigger] (r.mem)(i) == (t.mem)(i) by {
            lemma_wrap_byte((t.mem)(i));
            assert(c0 * 0 == 0);
        }
        assert(r.mem =~= t.mem);
        assert(r =~= t);
    } else {
        let front_body = body.drop_last();
        assert forall|k: int| 0 <= k < front_body.len() implies !(#[trigger] ins_at(front_body, k) matches Some(Instruction::Add(0, _))) by {
            lemma_ins_at_prefix(body, k);
            assert(!(ins_at(body, k) matches Some(Instruction::Add(0, _))));
        }
        let (front, back) = loop_fold(front_body)->0;
        let i = ins_at(body, body.len() - 1)->0;
        assert(!(ins_at(body, body.len() - 1) matches Some(Instruction::Add(0, _))));
        match i {
            Instruction::Add(o, Value::Const(v)) => {
                let x = if v == 1 { Instruction::Add(o, Value::Memory(0)) } else { Instruction::MulAdd(o, 0, v) };
                let t1 = run_instruction(x, t);
                assert(o != 0);
                assert(cell(t1, 0) == c0);
                lemma_fold_front(front_body, t1);
                lemma_instructions_front(x, front, t);
                assert((loop_fold(body)->0).0 == seq![x] + front);
                let a = instructions_tape(front, t1);
                assert forall|j: int| #[trigger] (a.mem)(j) == (r.mem)(j) by {
                    let m = (t.mem)(j);
                    let p = add_total(front_body, j - t.ptr);
                    if j != t.ptr {
                        if j == t.ptr + o {
                            lemma_wrap_add(m + c0 * v, c0 * p);
                            assert(c0 * v + c0 * p == c0 * (p + v)) by (nonlinear_arith);
                            assert(add_total(body, j - t.ptr) == p + v);
                        } else {
                            assert(add_total(body, j - t.ptr) == p);
                        }
                    }
                }
                assert(a.mem =~= r.mem);
                assert(a =~= r);
            },
            _ => {
                lemma_fold_front(front_body, t);
                let a = instructions_tape(front, t);
                assert forall|j: int| #[trigger] (a.mem)(j) == (r.mem)(j) by {
                    assert(add_total(body, j - t.ptr) == add_total(front_body, j - t.ptr));
                }
                assert(a.mem =~= r.mem);
                assert(a =~= r);
            },
        }
    }
}

pub(crate) proof fn lemma_instructions_front(x: Instruction, rest: Seq<Instruction>, t: Tape)
    ensures
        instructions_tape(seq![x] + rest, t) == instructions_tape(rest, run_instruction(x, t)),
    decreases rest.len(),
{
    if rest.len() == 0 {
        assert(seq![x] + rest =~= seq![x]);
        assert(seq![x].drop_last() =~= Seq::<Instruction>::empty());
        reveal_with_fuel(instructions_tape, 2);
    } else {
        lemma_instructions_front(x, rest.drop_last(), t);
        assert((seq![x] + rest).drop_last() =~= seq![x] + rest.drop_last());
        assert((seq![x] + rest).last() == rest.last());
    }
}

pub(crate) proof fn lemma_instructions_append(a: Seq<Instruction>, b: Seq<Instruction>, t: Tape)
    ensures
        instructions_tape(a + b, t) == instructions_tape(b, instructions_tape(a, t)),
    decreases b.len(),
{
    if b.len() == 0 {
        assert(a + b =~= a);
    } else {
        lemma_instructions_append(a, b.drop_last(), t);
        assert((a + b).drop_last() =~= a + b.drop_last());
        assert((a + b).last() == b.last());
    }
}

/// The clears the fold puts at the back: one for each step of the counter.
proof fn lemma_fold_back(body: Seq<NodModel>)
    requires
        loop_fold(body) is Some,
    ensures
        (loop_fold(body)->0).1 == Seq::new(counter_steps(body) as nat, |_k: int| set0()),
        counter_steps(body) >= 0,
    decreases body.len(),
{
    if body.len() > 0 {
        lemma_fold_back(body.drop_last());
        let (front, back) = loop_fold(body.drop_last())->0;
        if ins_at(body, body.len() - 1) == Some(Instruction::Sub(0, Value::Const(1))) {
            assert(back.push(set0()) =~= Seq::new(counter_steps(body) as nat, |_k: int| set0()));
        }
    }
}

/// A loop of additions of constants that takes one from its counter each round does what its
/// rewriting into additions (or multiplications) of the counter and a clear does, when it
/// finishes. The additions must leave the counter alone.
pub proof fn lemma_loop_rule_keeps_runs(n: NodModel, t: Tape, f: nat)
    requires
        loop_rule(n) is Some,
        adds_off_counter(loop_body(n)->0),
        counter_steps(loop_body(n)->0) == 1,
        run_nod(n, t, f) is Some,
    ensures
        run_nod(n, t, f) == run_nods(loop_rule(n)->0, t, f),
    decreases f,
{
    let body = loop_body(n)->0;
    let d = body_deltas(body);
    let c0 = cell(t, 0);
    let (front, back) = loop_fold(body)->0;
    lemma_fold_back(body);
    assert(back =~= seq![set0()]);
    lemma_instrs_runs(front + back, t, f);
    lemma_instructions_append(front, back, t);
    lemma_fold_front(body, t);
    let t1 = instructions_tape(front, t);
    assert(back.drop_last() =~= Seq::<Instruction>::empty());
    reveal_with_fuel(instructions_tape, 2);
    let a = instructions_tape(back, t1);
    assert(a == run_instruction(set0(), t1));
    assert(d(0) == -1) by {
        assert(add_total(body, 0) == 0) by {
            lemma_add_total_counter(body);
        }
    }
    if c0 == 0 {
        assert(run_nod(n, t, f) == Some(t));
        assert forall|j: int| #[trigger] (a.mem)(j) == (t.mem)(j) by {
            lemma_wrap_byte((t.mem)(j));
            assert(c0 * add_total(body, j - t.ptr) == 0);
        }
        assert(a.mem =~= t.mem);
        assert(a =~= t);
    } else {
        let g = (f - 1) as nat;
        lemma_fold_round(body, t, g);
        let t2 = round_tape(d, t);
        assert(cell(t2, 0) == c0 - 1);
        assert(run_nod(n, t, f) == run_nod(n, t2, g));
        lemma_loop_rule_keeps_runs(n, t2, g);
        let (front2, back2) = loop_fold(body)->0;
        lemma_fold_front(body, t2);
        lemma_instructions_append(front, back, t2);
        lemma_instrs_runs(front + back, t2, g);
        let a2 = instructions_tape(back, instructions_tape(front, t2));
        assert forall|j: int| #[trigger] (a2.mem)(j) == (a.mem)(j) by {
            let m = (t.mem)(j);
            let p = add_total(body, j - t.ptr);
            if j != t.ptr {
                lemma_wrap_add(m + p, (c0 - 1) * p);
                assert(m + p + (c0 - 1) * p == m + c0 * p) by (nonlinear_arith);
            }
        }
        assert(a2.mem =~= a.mem);
        assert(a2 =~= a);
    }
}

proof fn lemma_add_total_counter(body: Seq<NodModel>)
    requires
        adds_off_counter(body),
    ensures
        add_total(body, 0) == 0,
    decreases body.len(),
{
    if body.len() > 0 {
        let front = body.drop_last();
        assert forall|k: int| 0 <= k < front.len() implies !(#[trigger] ins_at(front, k) matches Some(Instruction::Add(0, _))) by {
            lemma_ins_at_prefix(body, k);
            assert(!(ins_at(body, k) matches Some(Instruction::Add(0, _))));
        }
        lemma_add_total_counter(front);
        assert(!(ins_at(body, body.len() - 1) matches Some(Instruction::Add(0, _))));
    }
}

} // verus!
