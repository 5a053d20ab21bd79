//! What the loop rewrites of the pattern optimizers keep of a run: a loop that counts its cell
//! down to zero, adding to other cells each round, does what the fused commands do at once.

use vstd::prelude::*;
use crate::instruction::{Tape, cell, with_cell, wrap, lemma_wrap_add, lemma_wrap_byte};
use crate::parse::ExprModel;
use crate::token::{Instruction, mergeable, merge_rule, no_action};
use super::merge::merge_run;
use super::set_value::set_value_rule;
use super::move_add::move_add_rule;
use super::move_add_rev::move_add_rev_rule;
use super::move_sub::move_sub_rule;
use super::move_sub_rev::move_sub_rev_rule;
use super::mul_add::mul_add_rule;
use super::zeroset::zeroset_rule;
use super::copy::copy_rule;
use super::copy_rev::copy_rev_rule;
use super::sub_copy::sub_copy_rule;

verus! {

/// What one command does to a tape, as its documentation says. Reading keeps the last byte read.
pub open spec fn command_tape(i: Instruction, t: Tape) -> Tape {
    let c = cell(t, 0);
    match i {
        Instruction::PtrIncrement(n) => Tape { ptr: t.ptr + n, ..t },
        Instruction::PtrDecrement(n) => Tape { ptr: t.ptr - n, ..t },
        Instruction::Add(n) => with_cell(t, t.ptr, wrap(c + n)),
        Instruction::Sub(n) => with_cell(t, t.ptr, wrap(c - n)),
        Instruction::AddTo(n) | Instruction::Copy(n) => with_cell(t, t.ptr + n, wrap(cell(t, n as int) + c)),
        Instruction::AddToRev(n) | Instruction::CopyRev(n) => with_cell(t, t.ptr - n, wrap(cell(t, -n) + c)),
        Instruction::SubTo(n) => with_cell(t, t.ptr + n, wrap(cell(t, n as int) - c)),
        Instruction::SubToRev(n) => with_cell(t, t.ptr - n, wrap(cell(t, -n) - c)),
        Instruction::MulAdd(n, x) => with_cell(t, t.ptr + n, wrap(cell(t, n as int) + c * x)),
        Instruction::MulAddRev(n, x) => with_cell(t, t.ptr - n, wrap(cell(t, -n) + c * x)),
        Instruction::Output(n) => Tape { out: t.out + Seq::new(n as nat, |_k: int| c), ..t },
        Instruction::Input(n) => if n == 0 {
            t
        } else {
            with_cell(Tape { input: t.input.skip(n as int), ..t }, t.ptr, t.input[n - 1])
        },
        Instruction::ZeroSet => with_cell(t, t.ptr, 0),
        Instruction::SetValue(n, x) => with_cell(t, t.ptr + n, x),
        Instruction::MoveSubRev(n) => with_cell(with_cell(t, t.ptr - n, wrap(cell(t, -n) - c)), t.ptr, 0),
    }
}

/// A run of commands, one after the other.
pub open spec fn commands_tape(s: Seq<Instruction>, t: Tape) -> Tape
    decreases s.len(),
{
    if s.len() == 0 {
        t
    } else {
        command_tape(s.last(), commands_tape(s.drop_last(), t))
    }
}

/// Running a run or a loop with `fuel` rounds of loops to spend: `None` when the fuel runs out.
pub open spec fn run_expr(e: ExprModel, t: Tape, fuel: nat) -> Option<Tape>
    decreases fuel, e,
{
    match e {
        ExprModel::Instructions(s) => Some(commands_tape(s, t)),
        ExprModel::While(body) => if cell(t, 0) == 0 {
            Some(t)
        } else if fuel == 0 {
            None
        } else {
            match run_exprs(body, t, (fuel - 1) as nat) {
                Some(t2) => run_expr(e, t2, (fuel - 1) as nat),
                None => None,
            }
        },
    }
}

pub open spec fn run_exprs(es: Seq<ExprModel>, t: Tape, fuel: nat) -> Option<Tape>
    decreases fuel, es,
{
    if es.len() == 0 {
        Some(t)
    } else {
        match run_exprs(es.drop_last(), t, fuel) {
            Some(t1) => run_expr(es.last(), t1, fuel),
            None => None,
        }
    }
}

/// One round of a counting loop: each cell changes by `d` of its offset from the pointer.
pub open spec fn round_tape(d: spec_fn(int) -> int, t: Tape) -> Tape {
    Tape { mem: |i: int| wrap((t.mem)(i) + d(i - t.ptr)), ..t }
}

/// `n` rounds at once.
pub open spec fn rounds_tape(d: spec_fn(int) -> int, t: Tape, n: int) -> Tape {
    Tape { mem: |i: int| wrap((t.mem)(i) + n * d(i - t.ptr)), ..t }
}

/// The loop over a single run.
pub open spec fn run_loop(b: Seq<Instruction>) -> ExprModel {
    ExprModel::While(seq![ExprModel::Instructions(b)])
}

proof fn lemma_single_run(b: Seq<Instruction>, t: Tape, g: nat)
    ensures
        run_exprs(seq![ExprModel::Instructions(b)], t, g) == Some(commands_tape(b, t)),
{
    let s = seq![ExprModel::Instructions(b)];
    assert(s.drop_last() =~= Seq::<ExprModel>::empty());
    assert(run_exprs(Seq::<ExprModel>::empty(), t, g) == Some(t));
    assert(s.last() == ExprModel::Instructions(b));
    assert(run_exprs(s, t, g) == run_expr(ExprModel::Instructions(b), t, g));
}

/// A loop over a run that takes one from its cell each round and changes the other cells by
/// `d`, when it finishes, has run as many rounds as the cell held.
proof fn lemma_counting_loop(b: Seq<Instruction>, d: spec_fn(int) -> int, t: Tape, f: nat)
    requires
        d(0) == -1,
        forall|u: Tape| #[trigger] commands_tape(b, u) == round_tape(d, u),
        run_expr(run_loop(b), t, f) is Some,
    ensures
        run_expr(run_loop(b), t, f) == Some(rounds_tape(d, t, cell(t, 0) as int)),
    decreases f,
{
    let c0 = cell(t, 0);
    if c0 == 0 {
        assert(rounds_tape(d, t, 0).mem =~= t.mem) by {
            assert forall|i: int| #[trigger] (rounds_tape(d, t, 0).mem)(i) == (t.mem)(i) by {
                lemma_wrap_byte((t.mem)(i));
            }
        }
        assert(rounds_tape(d, t, 0) =~= t);
    } else {
        let g = (f - 1) as nat;
        lemma_single_run(b, t, g);
        let t2 = round_tape(d, t);
        assert(commands_tape(b, t) == t2);
        assert(cell(t2, 0) == c0 - 1);
        lemma_counting_loop(b, d, t2, g);
        let a = rounds_tape(d, t2, c0 - 1);
        let r = rounds_tape(d, t, c0 as int);
        assert forall|i: int| #[trigger] (a.mem)(i) == (r.mem)(i) by {
            let m = (t.mem)(i);
            let k = d(i - t.ptr);
            lemma_wrap_add(m + k, (c0 - 1) * k);
            assert(m + k + (c0 - 1) * k == m + c0 * k) by (nonlinear_arith);
        }
        assert(a.mem =~= r.mem);
        assert(a =~= r);
    }
}

/// A loop over a run that leaves its cell as it is never finishes on a non-zero cell.
proof fn lemma_stuck_loop(b: Seq<Instruction>, d: spec_fn(int) -> int, t: Tape, f: nat)
    requires
        d(0) == 0,
        forall|u: Tape| #[trigger] commands_tape(b, u) == round_tape(d, u),
        cell(t, 0) != 0,
    ensures
        run_expr(run_loop(b), t, f) is None,
    decreases f,
{
    if f > 0 {
        let g = (f - 1) as nat;
        lemma_single_run(b, t, g);
        let t2 = round_tape(d, t);
        assert(commands_tape(b, t) == t2);
        lemma_wrap_byte(cell(t, 0));
        assert(cell(t2, 0) == cell(t, 0));
        lemma_stuck_loop(b, d, t2, g);
    }
}

/// No command of the run moves the pointer by zero.
pub open spec fn moves_nonzero(b: Seq<Instruction>) -> bool {
    forall|k: int| 0 <= k < b.len() ==> !(#[trigger] b[k] matches Instruction::PtrIncrement(0))
        && !(b[k] matches Instruction::PtrDecrement(0))
}

/// Each round takes one from the cell and adds `a` at offset `x` (and `c` at offset `y`, and
/// `e` at offset `z`).
pub open spec fn deltas(x: int, a: int, y: int, c: int, z: int, e: int) -> spec_fn(int) -> int {
    |k: int| if k == 0 { -1 } else { (if k == x { a } else { 0 }) + (if k == y { c } else { 0 }) + (if k == z { e } else { 0 }) }
}

/// `[->>>+<<<]` (or `[>>>+<<<-]`) does what `AddTo(3)` and `ZeroSet` do, when it finishes.
pub proof fn lemma_move_add_rewrite(b: Seq<Instruction>, t: Tape, f: nat)
    requires
        move_add_rule(b) is Some,
        moves_nonzero(b),
        run_expr(run_loop(b), t, f) is Some,
    ensures
        run_expr(run_loop(b), t, f) == Some(commands_tape(move_add_rule(b)->0, t)),
{
    let x = match b[1] {
        Instruction::PtrIncrement(x) => x,
        _ => b[0]->PtrIncrement_0,
    };
    assert(x > 0) by {
        if b[0] is Sub {
            assert(!(b[1] matches Instruction::PtrIncrement(0)));
        } else {
            assert(!(b[0] matches Instruction::PtrIncrement(0)));
        }
    }
    let d = deltas(x as int, 1, 0, 0, 0, 0);
    assert forall|u: Tape| #[trigger] commands_tape(b, u) == round_tape(d, u) by {
        reveal_with_fuel(commands_tape, 5);
        let a = commands_tape(b, u);
        let r = round_tape(d, u);
        assert forall|i: int| #[trigger] (a.mem)(i) == (r.mem)(i) by {
            lemma_wrap_byte((u.mem)(i));
        }
        assert(a.mem =~= r.mem);
        assert(a =~= r);
    }
    lemma_counting_loop(b, d, t, f);
    let c0 = cell(t, 0);
    let rw = move_add_rule(b)->0;
    assert(rw == seq![Instruction::AddTo(x), Instruction::ZeroSet]);
    reveal_with_fuel(commands_tape, 3);
    let t1 = command_tape(Instruction::AddTo(x), t);
    assert(rw.drop_last() =~= seq![Instruction::AddTo(x)]);
    assert(seq![Instruction::AddTo(x)].drop_last() =~= Seq::<Instruction>::empty());
    let a = commands_tape(rw, t);
    assert(a == command_tape(Instruction::ZeroSet, t1));
    let r = rounds_tape(d, t, c0 as int);
    assert forall|i: int| #[trigger] (a.mem)(i) == (r.mem)(i) by {
        lemma_wrap_byte((t.mem)(i));
        if i == t.ptr {
            let k = d(i - t.ptr);
            assert(k == -1);
            assert(c0 * k == -c0) by (nonlinear_arith) requires k == -1;
        } else if i == t.ptr + x {
            let k = d(i - t.ptr);
            assert(k == 1);
            assert(c0 * k == c0) by (nonlinear_arith) requires k == 1;
        } else {
            let k = d(i - t.ptr);
            assert(k == 0);
            assert(c0 * k == 0) by (nonlinear_arith) requires k == 0;
        }
    }
    assert(a.mem =~= r.mem);
    assert(a =~= r);
}

proof fn lemma_scale(c0: int, k: int)
    ensures
        k == 1 ==> c0 * k == c0,
        k == -1 ==> c0 * k == -c0,
        k == 0 ==> c0 * k == 0,
        k == 2 ==> c0 * k == 2 * c0,
        k == -2 ==> c0 * k == -2 * c0,
{
    assert(k == 1 ==> c0 * k == c0) by (nonlinear_arith);
    assert(k == -1 ==> c0 * k == -c0) by (nonlinear_arith);
    assert(k == 0 ==> c0 * k == 0) by (nonlinear_arith);
    assert(k == 2 ==> c0 * k == 2 * c0) by (nonlinear_arith);
    assert(k == -2 ==> c0 * k == -2 * c0) by (nonlinear_arith);
}

/// `[-<<<+>>>]` (or `[<<<+>>>-]`) does what `AddToRev(3)` and `ZeroSet` do, when it finishes.
pub proof fn lemma_move_add_rev_rewrite(b: Seq<Instruction>, t: Tape, f: nat)
    requires
        move_add_rev_rule(b) is Some,
        moves_nonzero(b),
        run_expr(run_loop(b), t, f) is Some,
    ensures
        run_expr(run_loop(b), t, f) == Some(commands_tape(move_add_rev_rule(b)->0, t)),
{
    let x = match b[1] {
        Instruction::PtrDecrement(x) => x,
        _ => b[0]->PtrDecrement_0,
    };
    assert(x > 0) by {
        if b[0] is Sub {
            assert(!(b[1] matches Instruction::PtrDecrement(0)));
        } else {
            assert(!(b[0] matches Instruction::PtrDecrement(0)));
        }
    }
    let d = deltas(-x, 1, 0, 0, 0, 0);
    assert forall|u: Tape| #[trigger] commands_tape(b, u) == round_tape(d, u) by {
        reveal_with_fuel(commands_tape, 5);
        let a = commands_tape(b, u);
        let r = round_tape(d, u);
        assert forall|i: int| #[trigger] (a.mem)(i) == (r.mem)(i) by {
            lemma_wrap_byte((u.mem)(i));
        }
        assert(a.mem =~= r.mem);
        assert(a =~= r);
    }
    lemma_counting_loop(b, d, t, f);
    let c0 = cell(t, 0);
    let rw = move_add_rev_rule(b)->0;
    assert(rw == seq![Instruction::AddToRev(x), Instruction::ZeroSet]);
    reveal_with_fuel(commands_tape, 3);
    assert(rw.drop_last() =~= seq![Instruction::AddToRev(x)]);
    assert(seq![Instruction::AddToRev(x)].drop_last() =~= Seq::<Instruction>::empty());
    let a = commands_tape(rw, t);
    assert(a == command_tape(Instruction::ZeroSet, command_tape(Instruction::AddToRev(x), t)));
    let r = rounds_tape(d, t, c0 as int);
    assert forall|i: int| #[trigger] (a.mem)(i) == (r.mem)(i) by {
        lemma_wrap_byte((t.mem)(i));
        lemma_scale(c0 as int, d(i - t.ptr));
    }
    assert(a.mem =~= r.mem);
    assert(a =~= r);
}

/// `[->>>-<<<]` does what `SubTo(3)` and `ZeroSet` do, when it finishes.
pub proof fn lemma_move_sub_rewrite(b: Seq<Instruction>, t: Tape, f: nat)
    requires
        move_sub_rule(b) is Some,
        moves_nonzero(b),
        run_expr(run_loop(b), t, f) is Some,
    ensures
        run_expr(run_loop(b), t, f) == Some(commands_tape(move_sub_rule(b)->0, t)),
{
    let x = b[1]->PtrIncrement_0;
    assert(!(b[1] matches Instruction::PtrIncrement(0)));
    let d = deltas(x as int, -1, 0, 0, 0, 0);
    assert forall|u: Tape| #[trigger] commands_tape(b, u) == round_tape(d, u) by {
        reveal_with_fuel(commands_tape, 5);
        let a = commands_tape(b, u);
        let r = round_tape(d, u);
        assert forall|i: int| #[trigger] (a.mem)(i) == (r.mem)(i) by {
            lemma_wrap_byte((u.mem)(i));
        }
        assert(a.mem =~= r.mem);
        assert(a =~= r);
    }
    lemma_counting_loop(b, d, t, f);
    let c0 = cell(t, 0);
    let rw = move_sub_rule(b)->0;
    assert(rw == seq![Instruction::SubTo(x), Instruction::ZeroSet]);
    reveal_with_fuel(commands_tape, 3);
    assert(rw.drop_last() =~= seq![Instruction::SubTo(x)]);
    assert(seq![Instruction::SubTo(x)].drop_last() =~= Seq::<Instruction>::empty());
    let a = commands_tape(rw, t);
    assert(a == command_tape(Instruction::ZeroSet, command_tape(Instruction::SubTo(x), t)));
    let r = rounds_tape(d, t, c0 as int);
    assert forall|i: int| #[trigger] (a.mem)(i) == (r.mem)(i) by {
        lemma_wrap_byte((t.mem)(i));
        lemma_scale(c0 as int, d(i - t.ptr));
    }
    assert(a.mem =~= r.mem);
    assert(a =~= r);
}

/// `[-<<<->>>]` does what `MoveSubRev(3)` does, when it finishes.
pub proof fn lemma_move_sub_rev_rewrite(b: Seq<Instruction>, t: Tape, f: nat)
    requires
        move_sub_rev_rule(b) is Some,
        moves_nonzero(b),
        run_expr(run_loop(b), t, f) is Some,
    ensures
        run_expr(run_loop(b), t, f) == Some(commands_tape(move_sub_rev_rule(b)->0, t)),
{
    let x = b[1]->PtrDecrement_0;
    assert(!(b[1] matches Instruction::PtrDecrement(0)));
    let d = deltas(-x, -1, 0, 0, 0, 0);
    assert forall|u: Tape| #[trigger] commands_tape(b, u) == round_tape(d, u) by {
        reveal_with_fuel(commands_tape, 5);
        let a = commands_tape(b, u);
        let r = round_tape(d, u);
        assert forall|i: int| #[trigger] (a.mem)(i) == (r.mem)(i) by {
            lemma_wrap_byte((u.mem)(i));
        }
        assert(a.mem =~= r.mem);
        assert(a =~= r);
    }
    lemma_counting_loop(b, d, t, f);
    let c0 = cell(t, 0);
    let rw = move_sub_rev_rule(b)->0;
    assert(rw == seq![Instruction::MoveSubRev(x)]);
    reveal_with_fuel(commands_tape, 2);
    assert(rw.drop_last() =~= Seq::<Instruction>::empty());
    let a = commands_tape(rw, t);
    assert(a == command_tape(Instruction::MoveSubRev(x), t));
    let r = rounds_tape(d, t, c0 as int);
    assert forall|i: int| #[trigger] (a.mem)(i) == (r.mem)(i) by {
        lemma_wrap_byte((t.mem)(i));
        lemma_scale(c0 as int, d(i - t.ptr));
    }
    assert(a.mem =~= r.mem);
    assert(a =~= r);
}

/// `[->>>+++<<<]` (or `[>>>+++<<<-]`) does what `MulAdd(3, 3)` and `ZeroSet` do, when it
/// finishes.
pub proof fn lemma_mul_add_rewrite(b: Seq<Instruction>, t: Tape, f: nat)
    requires
        mul_add_rule(b) is Some,
        moves_nonzero(b),
        run_expr(run_loop(b), t, f) is Some,
    ensures
        run_expr(run_loop(b), t, f) == Some(commands_tape(mul_add_rule(b)->0, t)),
{
    let (x, n) = if b[0] is Sub {
        (b[1]->PtrIncrement_0, b[2]->Add_0)
    } else {
        (b[0]->PtrIncrement_0, b[1]->Add_0)
    };
    assert(x > 0) by {
        if b[0] is Sub {
            assert(!(b[1] matches Instruction::PtrIncrement(0)));
        } else {
            assert(!(b[0] matches Instruction::PtrIncrement(0)));
        }
    }
    let d = deltas(x as int, n as int, 0, 0, 0, 0);
    assert forall|u: Tape| #[trigger] commands_tape(b, u) == round_tape(d, u) by {
        reveal_with_fuel(commands_tape, 5);
        let a = commands_tape(b, u);
        let r = round_tape(d, u);
        assert forall|i: int| #[trigger] (a.mem)(i) == (r.mem)(i) by {
            lemma_wrap_byte((u.mem)(i));
        }
        assert(a.mem =~= r.mem);
        assert(a =~= r);
    }
    lemma_counting_loop(b, d, t, f);
    let c0 = cell(t, 0);
    let rw = mul_add_rule(b)->0;
    assert(rw == seq![Instruction::MulAdd(x, n), Instruction::ZeroSet]);
    reveal_with_fuel(commands_tape, 3);
    assert(rw.drop_last() =~= seq![Instruction::MulAdd(x, n)]);
    assert(seq![Instruction::MulAdd(x, n)].drop_last() =~= Seq::<Instruction>::empty());
    let a = commands_tape(rw, t);
    assert(a == command_tape(Instruction::ZeroSet, command_tape(Instruction::MulAdd(x, n), t)));
    let r = rounds_tape(d, t, c0 as int);
    assert forall|i: int| #[trigger] (a.mem)(i) == (r.mem)(i) by {
        lemma_wrap_byte((t.mem)(i));
        lemma_scale(c0 as int, d(i - t.ptr));
    }
    assert(a.mem =~= r.mem);
    assert(a =~= r);
}

/// `[+]` counts its cell up to zero.
proof fn lemma_count_up_loop(t: Tape, f: nat)
    requires
        run_expr(run_loop(seq![Instruction::Add(1)]), t, f) is Some,
    ensures
        run_expr(run_loop(seq![Instruction::Add(1)]), t, f) == Some(with_cell(t, t.ptr, 0)),
    decreases f,
{
    let b = seq![Instruction::Add(1)];
    if cell(t, 0) == 0 {
        assert(with_cell(t, t.ptr, 0).mem =~= t.mem);
        assert(with_cell(t, t.ptr, 0) =~= t);
    } else {
        let g = (f - 1) as nat;
        lemma_single_run(b, t, g);
        assert(b.drop_last() =~= Seq::<Instruction>::empty());
        reveal_with_fuel(commands_tape, 2);
        let t2 = commands_tape(b, t);
        assert(t2 == command_tape(Instruction::Add(1), t));
        lemma_count_up_loop(t2, g);
        assert(with_cell(t2, t2.ptr, 0).mem =~= with_cell(t, t.ptr, 0).mem);
        assert(with_cell(t2, t2.ptr, 0) =~= with_cell(t, t.ptr, 0));
    }
}

/// `[-]` (or `[+]`) does what `ZeroSet` does, when it finishes.
pub proof fn lemma_zeroset_rewrite(b: Seq<Instruction>, t: Tape, f: nat)
    requires
        zeroset_rule(b) is Some,
        run_expr(run_loop(b), t, f) is Some,
    ensures
        run_expr(run_loop(b), t, f) == Some(commands_tape(zeroset_rule(b)->0, t)),
{
    let rw = seq![Instruction::ZeroSet];
    assert(rw.drop_last() =~= Seq::<Instruction>::empty());
    reveal_with_fuel(commands_tape, 2);
    assert(commands_tape(rw, t) == command_tape(Instruction::ZeroSet, t));
    if b == seq![Instruction::Add(1)] {
        lemma_count_up_loop(t, f);
    } else {
        let d = deltas(0, 0, 0, 0, 0, 0);
        assert forall|u: Tape| #[trigger] commands_tape(b, u) == round_tape(d, u) by {
            assert(b.drop_last() =~= Seq::<Instruction>::empty());
            let a = commands_tape(b, u);
            let r = round_tape(d, u);
            assert forall|i: int| #[trigger] (a.mem)(i) == (r.mem)(i) by {
                lemma_wrap_byte((u.mem)(i));
            }
            assert(a.mem =~= r.mem);
            assert(a =~= r);
        }
        lemma_counting_loop(b, d, t, f);
        let c0 = cell(t, 0);
        let a = commands_tape(rw, t);
        let r = rounds_tape(d, t, c0 as int);
        assert forall|i: int| #[trigger] (a.mem)(i) == (r.mem)(i) by {
            lemma_wrap_byte((t.mem)(i));
            lemma_scale(c0 as int, d(i - t.ptr));
        }
        assert(a.mem =~= r.mem);
        assert(a =~= r);
    }
}

proof fn lemma_copy_first(b: Seq<Instruction>, x: usize, y: usize, z: usize, rw: Seq<Instruction>, t: Tape, f: nat)
    requires
        x > 0, y > 0, x + y == z,
        b == seq![Instruction::Sub(1), Instruction::PtrIncrement(x), Instruction::Add(1), Instruction::PtrIncrement(y),
            Instruction::Add(1), Instruction::PtrDecrement(z)],
        rw == seq![Instruction::Copy(x), Instruction::Copy(z), Instruction::ZeroSet],
        run_expr(run_loop(b), t, f) is Some,
    ensures
        run_expr(run_loop(b), t, f) == Some(commands_tape(rw, t)),
{
    let d = deltas(x as int, 1, x + y, 1, 0, 0);
    assert forall|u: Tape| #[trigger] commands_tape(b, u) == round_tape(d, u) by {
        reveal_with_fuel(commands_tape, 7);
        let a = commands_tape(b, u);
        let r = round_tape(d, u);
        assert forall|i: int| #[trigger] (a.mem)(i) == (r.mem)(i) by {
            lemma_wrap_byte((u.mem)(i));
        }
        assert(a.mem =~= r.mem);
        assert(a =~= r);
    }
    lemma_counting_loop(b, d, t, f);
    let c0 = cell(t, 0);
    reveal_with_fuel(commands_tape, 4);
    assert(rw.take(3).drop_last() =~= rw.take(2));
    assert(rw.take(2).drop_last() =~= rw.take(1));
    assert(rw.take(1).drop_last() =~= rw.take(0));
    assert(rw.take(3) =~= rw);
    let a = commands_tape(rw, t);
    let r = rounds_tape(d, t, c0 as int);
    assert forall|i: int| #[trigger] (a.mem)(i) == (r.mem)(i) by {
        lemma_wrap_byte((t.mem)(i));
        lemma_scale(c0 as int, d(i - t.ptr));
    }
    assert(a.mem =~= r.mem);
    assert(a =~= r);
}

proof fn lemma_copy_second(b: Seq<Instruction>, x: usize, y: usize, z: usize, rw: Seq<Instruction>, t: Tape, f: nat)
    requires
        x > 0, y > 0, z > 0, x == y + z,
        b == seq![Instruction::Sub(1), Instruction::PtrIncrement(x), Instruction::Add(1), Instruction::PtrDecrement(y),
            Instruction::Add(1), Instruction::PtrDecrement(z)],
        rw == seq![Instruction::Copy(x), Instruction::Copy((x - y) as usize), Instruction::ZeroSet],
        run_expr(run_loop(b), t, f) is Some,
    ensures
        run_expr(run_loop(b), t, f) == Some(commands_tape(rw, t)),
{
    let d = deltas(x as int, 1, x - y, 1, 0, 0);
    assert forall|u: Tape| #[trigger] commands_tape(b, u) == round_tape(d, u) by {
        reveal_with_fuel(commands_tape, 7);
        let a = commands_tape(b, u);
        let r = round_tape(d, u);
        assert forall|i: int| #[trigger] (a.mem)(i) == (r.mem)(i) by {
            lemma_wrap_byte((u.mem)(i));
        }
        assert(a.mem =~= r.mem);
        assert(a =~= r);
    }
    lemma_counting_loop(b, d, t, f);
    let c0 = cell(t, 0);
    reveal_with_fuel(commands_tape, 4);
    assert(rw.take(3).drop_last() =~= rw.take(2));
    assert(rw.take(2).drop_last() =~= rw.take(1));
    assert(rw.take(1).drop_last() =~= rw.take(0));
    assert(rw.take(3) =~= rw);
    let a = commands_tape(rw, t);
    let r = rounds_tape(d, t, c0 as int);
    assert forall|i: int| #[trigger] (a.mem)(i) == (r.mem)(i) by {
        lemma_wrap_byte((t.mem)(i));
        lemma_scale(c0 as int, d(i - t.ptr));
    }
    assert(a.mem =~= r.mem);
    assert(a =~= r);
}

proof fn lemma_copy_third(b: Seq<Instruction>, x: usize, y: usize, z: usize, a: usize, rw: Seq<Instruction>, t: Tape, f: nat)
    requires
        x > 0, y > 0, z > 0, a > 0, x == y + z + a,
        b == seq![Instruction::Sub(1), Instruction::PtrIncrement(x), Instruction::Add(1), Instruction::PtrDecrement(y),
            Instruction::Add(1), Instruction::PtrDecrement(z), Instruction::Add(1), Instruction::PtrDecrement(a)],
        rw == seq![Instruction::Copy(x), Instruction::Copy((x - y) as usize), Instruction::Copy((x - y - z) as usize), Instruction::ZeroSet],
        run_expr(run_loop(b), t, f) is Some,
    ensures
        run_expr(run_loop(b), t, f) == Some(commands_tape(rw, t)),
{
    let d = deltas(x as int, 1, x - y, 1, x - y - z, 1);
    assert forall|u: Tape| #[trigger] commands_tape(b, u) == round_tape(d, u) by {
        reveal_with_fuel(commands_tape, 9);
        let a = commands_tape(b, u);
        let r = round_tape(d, u);
        assert forall|i: int| #[trigger] (a.mem)(i) == (r.mem)(i) by {
            lemma_wrap_byte((u.mem)(i));
        }
        assert(a.mem =~= r.mem);
        assert(a =~= r);
    }
    lemma_counting_loop(b, d, t, f);
    let c0 = cell(t, 0);
    reveal_with_fuel(commands_tape, 5);
    assert(rw.take(4).drop_last() =~= rw.take(3));
    assert(rw.take(3).drop_last() =~= rw.take(2));
    assert(rw.take(2).drop_last() =~= rw.take(1));
    assert(rw.take(1).drop_last() =~= rw.take(0));
    assert(rw.take(4) =~= rw);
    let a = commands_tape(rw, t);
    let r = rounds_tape(d, t, c0 as int);
    assert forall|i: int| #[trigger] (a.mem)(i) == (r.mem)(i) by {
        lemma_wrap_byte((t.mem)(i));
        lemma_scale(c0 as int, d(i - t.ptr));
    }
    assert(a.mem =~= r.mem);
    assert(a =~= r);
}

proof fn lemma_copy_rev_first(b: Seq<Instruction>, x: usize, y: usize, z: usize, rw: Seq<Instruction>, t: Tape, f: nat)
    requires
        x > 0, y > 0, x + y == z,
        b == seq![Instruction::Sub(1), Instruction::PtrDecrement(x), Instruction::Add(1), Instruction::PtrDecrement(y),
            Instruction::Add(1), Instruction::PtrIncrement(z)],
        rw == seq![Instruction::CopyRev(x), Instruction::CopyRev(z), Instruction::ZeroSet],
        run_expr(run_loop(b), t, f) is Some,
    ensures
        run_expr(run_loop(b), t, f) == Some(commands_tape(rw, t)),
{
    let d = deltas(-x, 1, -z, 1, 0, 0);
    assert forall|u: Tape| #[trigger] commands_tape(b, u) == round_tape(d, u) by {
        reveal_with_fuel(commands_tape, 7);
        let a = commands_tape(b, u);
        let r = round_tape(d, u);
        assert forall|i: int| #[trigger] (a.mem)(i) == (r.mem)(i) by {
            lemma_wrap_byte((u.mem)(i));
        }
        assert(a.mem =~= r.mem);
        assert(a =~= r);
    }
    lemma_counting_loop(b, d, t, f);
    let c0 = cell(t, 0);
    reveal_with_fuel(commands_tape, 4);
    assert(rw.take(3).drop_last() =~= rw.take(2));
    assert(rw.take(2).drop_last() =~= rw.take(1));
    assert(rw.take(1).drop_last() =~= rw.take(0));
    assert(rw.take(3) =~= rw);
    let a = commands_tape(rw, t);
    let r = rounds_tape(d, t, c0 as int);
    assert forall|i: int| #[trigger] (a.mem)(i) == (r.mem)(i) by {
        lemma_wrap_byte((t.mem)(i));
        lemma_scale(c0 as int, d(i - t.ptr));
    }
    assert(a.mem =~= r.mem);
    assert(a =~= r);
}

proof fn lemma_copy_rev_second(b: Seq<Instruction>, x: usize, y: usize, z: usize, rw: Seq<Instruction>, t: Tape, f: nat)
    requires
        x > 0, y > 0, z > 0, x == y + z,
        b == seq![Instruction::Sub(1), Instruction::PtrDecrement(x), Instruction::Add(1), Instruction::PtrIncrement(y),
            Instruction::Add(1), Instruction::PtrIncrement(z)],
        rw == seq![Instruction::CopyRev(x), Instruction::CopyRev((x - y) as usize), Instruction::ZeroSet],
        run_expr(run_loop(b), t, f) is Some,
    ensures
        run_expr(run_loop(b), t, f) == Some(commands_tape(rw, t)),
{
    let d = deltas(-x, 1, y - x, 1, 0, 0);
    assert forall|u: Tape| #[trigger] commands_tape(b, u) == round_tape(d, u) by {
        reveal_with_fuel(commands_tape, 7);
        let a = commands_tape(b, u);
        let r = round_tape(d, u);
        assert forall|i: int| #[trigger] (a.mem)(i) == (r.mem)(i) by {
            lemma_wrap_byte((u.mem)(i));
        }
        assert(a.mem =~= r.mem);
        assert(a =~= r);
    }
    lemma_counting_loop(b, d, t, f);
    let c0 = cell(t, 0);
    reveal_with_fuel(commands_tape, 4);
    assert(rw.take(3).drop_last() =~= rw.take(2));
    assert(rw.take(2).drop_last() =~= rw.take(1));
    assert(rw.take(1).drop_last() =~= rw.take(0));
    assert(rw.take(3) =~= rw);
    let a = commands_tape(rw, t);
    let r = rounds_tape(d, t, c0 as int);
    assert forall|i: int| #[trigger] (a.mem)(i) == (r.mem)(i) by {
        lemma_wrap_byte((t.mem)(i));
        lemma_scale(c0 as int, d(i - t.ptr));
    }
    assert(a.mem =~= r.mem);
    assert(a =~= r);
}

proof fn lemma_sub_copy_first(b: Seq<Instruction>, x: usize, y: usize, z: usize, rw: Seq<Instruction>, t: Tape, f: nat)
    requires
        x > 0, y > 0, x + y == z,
        b == seq![Instruction::Sub(1), Instruction::PtrDecrement(x), Instruction::Sub(1), Instruction::PtrDecrement(y),
            Instruction::Add(1), Instruction::PtrIncrement(z)],
        rw == seq![Instruction::SubToRev(x), Instruction::CopyRev(z), Instruction::ZeroSet],
        run_expr(run_loop(b), t, f) is Some,
    ensures
        run_expr(run_loop(b), t, f) == Some(commands_tape(rw, t)),
{
    let d = deltas(-x, -1, -z, 1, 0, 0);
    assert forall|u: Tape| #[trigger] commands_tape(b, u) == round_tape(d, u) by {
        reveal_with_fuel(commands_tape, 7);
        let a = commands_tape(b, u);
        let r = round_tape(d, u);
        assert forall|i: int| #[trigger] (a.mem)(i) == (r.mem)(i) by {
            lemma_wrap_byte((u.mem)(i));
        }
        assert(a.mem =~= r.mem);
        assert(a =~= r);
    }
    lemma_counting_loop(b, d, t, f);
    let c0 = cell(t, 0);
    reveal_with_fuel(commands_tape, 4);
    assert(rw.take(3).drop_last() =~= rw.take(2));
    assert(rw.take(2).drop_last() =~= rw.take(1));
    assert(rw.take(1).drop_last() =~= rw.take(0));
    assert(rw.take(3) =~= rw);
    let a = commands_tape(rw, t);
    let r = rounds_tape(d, t, c0 as int);
    assert forall|i: int| #[trigger] (a.mem)(i) == (r.mem)(i) by {
        lemma_wrap_byte((t.mem)(i));
        lemma_scale(c0 as int, d(i - t.ptr));
    }
    assert(a.mem =~= r.mem);
    assert(a =~= r);
}

proof fn lemma_sub_copy_second(b: Seq<Instruction>, x: usize, y: usize, z: usize, rw: Seq<Instruction>, t: Tape, f: nat)
    requires
        x > 0, y > 0, z > 0, x + z == y,
        b == seq![Instruction::Sub(1), Instruction::PtrIncrement(x), Instruction::Sub(1), Instruction::PtrDecrement(y),
            Instruction::Add(1), Instruction::PtrIncrement(z)],
        rw == seq![Instruction::SubTo(x), Instruction::CopyRev((y - x) as usize), Instruction::ZeroSet],
        run_expr(run_loop(b), t, f) is Some,
    ensures
        run_expr(run_loop(b), t, f) == Some(commands_tape(rw, t)),
{
    let d = deltas(x as int, -1, -z, 1, 0, 0);
    assert forall|u: Tape| #[trigger] commands_tape(b, u) == round_tape(d, u) by {
        reveal_with_fuel(commands_tape, 7);
        let a = commands_tape(b, u);
        let r = round_tape(d, u);
        assert forall|i: int| #[trigger] (a.mem)(i) == (r.mem)(i) by {
            lemma_wrap_byte((u.mem)(i));
        }
        assert(a.mem =~= r.mem);
        assert(a =~= r);
    }
    lemma_counting_loop(b, d, t, f);
    let c0 = cell(t, 0);
    reveal_with_fuel(commands_tape, 4);
    assert(rw.take(3).drop_last() =~= rw.take(2));
    assert(rw.take(2).drop_last() =~= rw.take(1));
    assert(rw.take(1).drop_last() =~= rw.take(0));
    assert(rw.take(3) =~= rw);
    let a = commands_tape(rw, t);
    let r = rounds_tape(d, t, c0 as int);
    assert forall|i: int| #[trigger] (a.mem)(i) == (r.mem)(i) by {
        lemma_wrap_byte((t.mem)(i));
        lemma_scale(c0 as int, d(i - t.ptr));
    }
    assert(a.mem =~= r.mem);
    assert(a =~= r);
}

proof fn lemma_sub_copy_third(b: Seq<Instruction>, x: usize, y: usize, z: usize, a: usize, rw: Seq<Instruction>, t: Tape, f: nat)
    requires
        x > 0, z > 0, y == x, z == a,
        b == seq![Instruction::PtrDecrement(x), Instruction::Sub(1), Instruction::PtrIncrement(y), Instruction::Sub(1),
            Instruction::PtrDecrement(z), Instruction::Add(1), Instruction::PtrIncrement(a)],
        rw == seq![Instruction::SubToRev(x), Instruction::CopyRev(z), Instruction::ZeroSet],
        run_expr(run_loop(b), t, f) is Some,
    ensures
        run_expr(run_loop(b), t, f) == Some(commands_tape(rw, t)),
{
    let d = deltas(-x, -1, -z, 1, 0, 0);
    assert forall|u: Tape| #[trigger] commands_tape(b, u) == round_tape(d, u) by {
        reveal_with_fuel(commands_tape, 8);
        let a = commands_tape(b, u);
        let r = round_tape(d, u);
        assert forall|i: int| #[trigger] (a.mem)(i) == (r.mem)(i) by {
            lemma_wrap_byte((u.mem)(i));
        }
        assert(a.mem =~= r.mem);
        assert(a =~= r);
    }
    lemma_counting_loop(b, d, t, f);
    let c0 = cell(t, 0);
    reveal_with_fuel(commands_tape, 4);
    assert(rw.take(3).drop_last() =~= rw.take(2));
    assert(rw.take(2).drop_last() =~= rw.take(1));
    assert(rw.take(1).drop_last() =~= rw.take(0));
    assert(rw.take(3) =~= rw);
    let a = commands_tape(rw, t);
    let r = rounds_tape(d, t, c0 as int);
    assert forall|i: int| #[trigger] (a.mem)(i) == (r.mem)(i) by {
        lemma_wrap_byte((t.mem)(i));
        lemma_scale(c0 as int, d(i - t.ptr));
    }
    assert(a.mem =~= r.mem);
    assert(a =~= r);
}

proof fn lemma_sub_copy_stuck(b: Seq<Instruction>, x: usize, y: usize, z: usize, a: usize, rw: Seq<Instruction>, t: Tape, f: nat)
    requires
        x > 0, a > 0, y != x, x + z == y + a,
        b == seq![Instruction::PtrDecrement(x), Instruction::Sub(1), Instruction::PtrIncrement(y), Instruction::Sub(1),
            Instruction::PtrDecrement(z), Instruction::Add(1), Instruction::PtrIncrement(a)],
        rw == seq![Instruction::SubToRev(x), Instruction::CopyRev(z), Instruction::ZeroSet],
        run_expr(run_loop(b), t, f) is Some,
    ensures
        run_expr(run_loop(b), t, f) == Some(commands_tape(rw, t)),
{
    let d = |k: int| (if k == -x { -1int } else { 0 }) + (if k == y - x { -1int } else { 0 }) + (if k == -a { 1int } else { 0 });
    assert forall|u: Tape| #[trigger] commands_tape(b, u) == round_tape(d, u) by {
        reveal_with_fuel(commands_tape, 8);
        let m = commands_tape(b, u);
        let r = round_tape(d, u);
        assert forall|i: int| #[trigger] (m.mem)(i) == (r.mem)(i) by {
            lemma_wrap_byte((u.mem)(i));
        }
        assert(m.mem =~= r.mem);
        assert(m =~= r);
    }
    if cell(t, 0) != 0 {
        lemma_stuck_loop(b, d, t, f);
    }
    reveal_with_fuel(commands_tape, 4);
    assert(rw.take(3).drop_last() =~= rw.take(2));
    assert(rw.take(2).drop_last() =~= rw.take(1));
    assert(rw.take(1).drop_last() =~= rw.take(0));
    assert(rw.take(3) =~= rw);
    let m = commands_tape(rw, t);
    assert forall|i: int| #[trigger] (m.mem)(i) == (t.mem)(i) by {
        lemma_wrap_byte((t.mem)(i));
    }
    assert(m.mem =~= t.mem);
    assert(m =~= t);
}

/// A copying loop (such as `[->+>+<<]`) does what its `Copy` commands and `ZeroSet` do,
/// when it finishes.
pub proof fn lemma_copy_rewrite(b: Seq<Instruction>, t: Tape, f: nat)
    requires
        copy_rule(b) is Some,
        moves_nonzero(b),
        run_expr(run_loop(b), t, f) is Some,
    ensures
        run_expr(run_loop(b), t, f) == Some(commands_tape(copy_rule(b)->0, t)),
{
    let rw = copy_rule(b)->0;
    assert(!(b[1] matches Instruction::PtrIncrement(0)));
    assert(!(b[3] matches Instruction::PtrIncrement(0)) && !(b[3] matches Instruction::PtrDecrement(0)));
    assert(!(b[5] matches Instruction::PtrIncrement(0)) && !(b[5] matches Instruction::PtrDecrement(0)));
    if b.len() == 6 && b[3] is PtrIncrement {
        let (x, y, z) = (b[1]->PtrIncrement_0, b[3]->PtrIncrement_0, b[5]->PtrDecrement_0);
        assert(b =~= seq![Instruction::Sub(1), Instruction::PtrIncrement(x), Instruction::Add(1), Instruction::PtrIncrement(y),
            Instruction::Add(1), Instruction::PtrDecrement(z)]);
        lemma_copy_first(b, x, y, z, rw, t, f);
    } else if b.len() == 6 {
        let (x, y, z) = (b[1]->PtrIncrement_0, b[3]->PtrDecrement_0, b[5]->PtrDecrement_0);
        assert(b =~= seq![Instruction::Sub(1), Instruction::PtrIncrement(x), Instruction::Add(1), Instruction::PtrDecrement(y),
            Instruction::Add(1), Instruction::PtrDecrement(z)]);
        lemma_copy_second(b, x, y, z, rw, t, f);
    } else {
        assert(!(b[7] matches Instruction::PtrDecrement(0)));
        let (x, y, z, a) = (b[1]->PtrIncrement_0, b[3]->PtrDecrement_0, b[5]->PtrDecrement_0, b[7]->PtrDecrement_0);
        assert(b =~= seq![Instruction::Sub(1), Instruction::PtrIncrement(x), Instruction::Add(1), Instruction::PtrDecrement(y),
            Instruction::Add(1), Instruction::PtrDecrement(z), Instruction::Add(1), Instruction::PtrDecrement(a)]);
        lemma_copy_third(b, x, y, z, a, rw, t, f);
    }
}

/// A copying loop to the left (such as `[-<+<+>>]`) does what its `CopyRev` commands and
/// `ZeroSet` do, when it finishes.
pub proof fn lemma_copy_rev_rewrite(b: Seq<Instruction>, t: Tape, f: nat)
    requires
        copy_rev_rule(b) is Some,
        moves_nonzero(b),
        run_expr(run_loop(b), t, f) is Some,
    ensures
        run_expr(run_loop(b), t, f) == Some(commands_tape(copy_rev_rule(b)->0, t)),
{
    let rw = copy_rev_rule(b)->0;
    assert(!(b[1] matches Instruction::PtrDecrement(0)));
    assert(!(b[3] matches Instruction::PtrIncrement(0)) && !(b[3] matches Instruction::PtrDecrement(0)));
    assert(!(b[5] matches Instruction::PtrIncrement(0)));
    if b[3] is PtrDecrement {
        let (x, y, z) = (b[1]->PtrDecrement_0, b[3]->PtrDecrement_0, b[5]->PtrIncrement_0);
        assert(b =~= seq![Instruction::Sub(1), Instruction::PtrDecrement(x), Instruction::Add(1), Instruction::PtrDecrement(y),
            Instruction::Add(1), Instruction::PtrIncrement(z)]);
        lemma_copy_rev_first(b, x, y, z, rw, t, f);
    } else {
        let (x, y, z) = (b[1]->PtrDecrement_0, b[3]->PtrIncrement_0, b[5]->PtrIncrement_0);
        assert(b =~= seq![Instruction::Sub(1), Instruction::PtrDecrement(x), Instruction::Add(1), Instruction::PtrIncrement(y),
            Instruction::Add(1), Instruction::PtrIncrement(z)]);
        lemma_copy_rev_second(b, x, y, z, rw, t, f);
    }
}

/// A loop that moves its cell out of one cell and into another (such as `[-<-<+>>]`) does
/// what its `SubTo`, `CopyRev` and `ZeroSet` commands do, when it finishes.
pub proof fn lemma_sub_copy_rewrite(b: Seq<Instruction>, t: Tape, f: nat)
    requires
        sub_copy_rule(b) is Some,
        moves_nonzero(b),
        run_expr(run_loop(b), t, f) is Some,
    ensures
        run_expr(run_loop(b), t, f) == Some(commands_tape(sub_copy_rule(b)->0, t)),
{
    let rw = sub_copy_rule(b)->0;
    if b.len() == 6 {
        assert(!(b[1] matches Instruction::PtrIncrement(0)) && !(b[1] matches Instruction::PtrDecrement(0)));
        assert(!(b[3] matches Instruction::PtrDecrement(0)));
        assert(!(b[5] matches Instruction::PtrIncrement(0)));
        if b[1] is PtrDecrement {
            let (x, y, z) = (b[1]->PtrDecrement_0, b[3]->PtrDecrement_0, b[5]->PtrIncrement_0);
            assert(b =~= seq![Instruction::Sub(1), Instruction::PtrDecrement(x), Instruction::Sub(1), Instruction::PtrDecrement(y),
                Instruction::Add(1), Instruction::PtrIncrement(z)]);
            lemma_sub_copy_first(b, x, y, z, rw, t, f);
        } else {
            let (x, y, z) = (b[1]->PtrIncrement_0, b[3]->PtrDecrement_0, b[5]->PtrIncrement_0);
            assert(b =~= seq![Instruction::Sub(1), Instruction::PtrIncrement(x), Instruction::Sub(1), Instruction::PtrDecrement(y),
                Instruction::Add(1), Instruction::PtrIncrement(z)]);
            lemma_sub_copy_second(b, x, y, z, rw, t, f);
        }
    } else {
        assert(!(b[0] matches Instruction::PtrDecrement(0)));
        assert(!(b[4] matches Instruction::PtrDecrement(0)));
        assert(!(b[6] matches Instruction::PtrIncrement(0)));
        let (x, y, z, a) = (b[0]->PtrDecrement_0, b[2]->PtrIncrement_0, b[4]->PtrDecrement_0, b[6]->PtrIncrement_0);
        assert(b =~= seq![Instruction::PtrDecrement(x), Instruction::Sub(1), Instruction::PtrIncrement(y), Instruction::Sub(1),
            Instruction::PtrDecrement(z), Instruction::Add(1), Instruction::PtrIncrement(a)]);
        if y == x {
            lemma_sub_copy_third(b, x, y, z, a, rw, t, f);
        } else {
            lemma_sub_copy_stuck(b, x, y, z, a, rw, t, f);
        }
    }
}

proof fn lemma_byte_sums(x: u8, y: u8, c: int)
    ensures
        wrap(wrap(c + x) + y) == wrap(c + vstd::wrapping::u8_specs::wrapping_add(x, y)),
        wrap(wrap(c - x) - y) == wrap(c - vstd::wrapping::u8_specs::wrapping_add(x, y)),
        wrap(wrap(c + x) - y) == wrap(c + x - y),
        wrap(wrap(c - y) + x) == wrap(c + x - y),
{
    let w = vstd::wrapping::u8_specs::wrapping_add(x, y) as int;
    assert(w == (x + y) % 256);
    lemma_wrap_add(c + x, y as int);
    lemma_wrap_add(c - x, -(y as int));
    lemma_wrap_add(c + x, -(y as int));
    lemma_wrap_add(c - y, x as int);
    vstd::arithmetic::div_mod::lemma_add_mod_noop(c, x + y, 256);
    vstd::arithmetic::div_mod::lemma_add_mod_noop(c, w, 256);
    vstd::arithmetic::div_mod::lemma_mod_twice(x + y, 256);
    vstd::arithmetic::div_mod::lemma_sub_mod_noop(c, x + y, 256);
    vstd::arithmetic::div_mod::lemma_sub_mod_noop(c, w, 256);
}

/// Two commands that fuse do, fused, what they do one after the other, on every tape.
#[verifier::spinoff_prover]
#[verifier::rlimit(40)]
pub proof fn lemma_command_merge_keeps_effect(a: Instruction, b: Instruction, t: Tape)
    requires
        mergeable(a, b),
        merge_rule(a, b) is Some,
    ensures
        command_tape(merge_rule(a, b)->0, t) == command_tape(b, command_tape(a, t)),
{
    let m = merge_rule(a, b)->0;
    let c = cell(t, 0) as int;
    let l = command_tape(m, t);
    let r = command_tape(b, command_tape(a, t));
    match (a, b) {
        (Instruction::Add(x), Instruction::Add(y)) => {
            lemma_byte_sums(x, y, c);
            assert(l.mem =~= r.mem);
        },
        (Instruction::Sub(x), Instruction::Sub(y)) => {
            lemma_byte_sums(x, y, c);
            assert(l.mem =~= r.mem);
        },
        (Instruction::Add(x), Instruction::Sub(y)) => {
            lemma_byte_sums(x, y, c);
            assert(l.mem =~= r.mem);
        },
        (Instruction::Sub(y), Instruction::Add(x)) => {
            lemma_byte_sums(x, y, c);
            assert(l.mem =~= r.mem);
        },
        (Instruction::Output(x), Instruction::Output(y)) => {
            assert(l.out =~= r.out);
        },
        (Instruction::PtrIncrement(_), Instruction::PtrIncrement(_)) => {},
        (Instruction::PtrDecrement(_), Instruction::PtrDecrement(_)) => {},
        (Instruction::PtrIncrement(_), Instruction::PtrDecrement(_)) => {},
        (Instruction::PtrDecrement(_), Instruction::PtrIncrement(_)) => {},
        _ => {
            lemma_no_action_command(a, b, t);
        },
    }
    assert(l =~= r);
}

/// A command that changes nothing gives way to the other, on every tape.
proof fn lemma_no_action_command(a: Instruction, b: Instruction, t: Tape)
    requires
        no_action(a) || no_action(b),
    ensures
        no_action(a) ==> command_tape(a, t) == t,
        no_action(b) ==> command_tape(b, command_tape(a, t)) == command_tape(a, t),
{
    if no_action(a) {
        lemma_wrap_byte(cell(t, 0));
        assert(command_tape(a, t).mem =~= t.mem);
        assert(command_tape(a, t) =~= t);
    }
    if no_action(b) {
        let u = command_tape(a, t);
        lemma_wrap_byte(cell(u, 0));
        assert(command_tape(b, u).mem =~= u.mem);
        assert(command_tape(b, u) =~= u);
    }
}

/// Fusing the commands of a run keeps what the run does, on every tape.
pub proof fn lemma_merge_run_keeps_effect(s: Seq<Instruction>, t: Tape)
    ensures
        commands_tape(merge_run(s), t) == commands_tape(s, t),
    decreases s.len(),
{
    if s.len() > 0 {
        let acc = merge_run(s.drop_last());
        let x = s.last();
        lemma_merge_run_keeps_effect(s.drop_last(), t);
        if acc.len() == 0 {
            assert(seq![x].drop_last() =~= Seq::<Instruction>::empty());
        } else if mergeable(acc.last(), x) && merge_rule(acc.last(), x) is Some {
            let m = merge_rule(acc.last(), x)->0;
            let front = acc.drop_last();
            let u = commands_tape(front, t);
            lemma_command_merge_keeps_effect(acc.last(), x, u);
            assert(front.push(m).drop_last() =~= front);
            assert(front.push(acc.last()) =~= acc);
            assert(commands_tape(acc, t) == command_tape(acc.last(), u));
        } else {
            assert(acc.push(x).drop_last() =~= acc);
        }
    }
}

proof fn lemma_commands_append(a: Seq<Instruction>, b: Seq<Instruction>, t: Tape)
    ensures
        commands_tape(a + b, t) == commands_tape(b, commands_tape(a, t)),
    decreases b.len(),
{
    if b.len() == 0 {
        assert(a + b =~= a);
    } else {
        lemma_commands_append(a, b.drop_last(), t);
        assert((a + b).drop_last() =~= a + b.drop_last());
        assert((a + b).last() == b.last());
    }
}

proof fn lemma_run_exprs_append(a: Seq<ExprModel>, b: Seq<ExprModel>, t: Tape, f: nat)
    requires
        run_exprs(a, t, f) is Some,
    ensures
        run_exprs(a + b, t, f) == run_exprs(b, run_exprs(a, t, f)->0, f),
    decreases b.len(),
{
    if b.len() == 0 {
        assert(a + b =~= a);
    } else {
        lemma_run_exprs_append(a, b.drop_last(), t, f);
        assert((a + b).drop_last() =~= a + b.drop_last());
        assert((a + b).last() == b.last());
    }
}

proof fn lemma_run_exprs_prefix(a: Seq<ExprModel>, b: Seq<ExprModel>, t: Tape, f: nat)
    requires
        run_exprs(a + b, t, f) is Some,
    ensures
        run_exprs(a, t, f) is Some,
    decreases b.len(),
{
    if b.len() == 0 {
        assert(a + b =~= a);
    } else {
        assert((a + b).drop_last() =~= a + b.drop_last());
        lemma_run_exprs_prefix(a, b.drop_last(), t, f);
    }
}

/// Where the constant-product rewrite keeps what the node does: the loop moves the pointer,
/// its counter and its target cell are zero before the run's last addition, and the product
/// stays below 255 (the rewrite takes it modulo 255, while cells wrap at 256).
pub open spec fn set_value_fits(ms: Seq<ExprModel>, t: Tape) -> bool {
    let ins = ms[0]->Instructions_0;
    let b = ms[1]->While_0[0]->Instructions_0;
    let p = b[1]->PtrIncrement_0;
    let x = b[2]->Add_0;
    let n = ins.last()->Add_0;
    let t1 = commands_tape(ins.drop_last(), t);
    &&& p > 0
    &&& n * x < 255
    &&& cell(t1, 0) == 0
    &&& cell(t1, p as int) == 0
}

/// `+n[->+m<]` (the loop's moves `p` cells long) does what storing `n * m` at offset `p`
/// does, where the counter and the target start from zero and the product fits: the store
/// addresses the cell the loop adds into.
#[verifier::spinoff_prover]
#[verifier::rlimit(40)]
pub proof fn lemma_set_value_rewrite(ms: Seq<ExprModel>, t: Tape, f: nat)
    requires
        set_value_rule(ms) is Some,
        set_value_fits(ms, t),
        run_exprs(ms, t, f) is Some,
    ensures
        run_exprs(set_value_rule(ms)->0, t, f) == run_exprs(ms, t, f),
{
    let ins = ms[0]->Instructions_0;
    let w = ms[1]->While_0;
    let s = ms[2]->Instructions_0;
    let b = w[0]->Instructions_0;
    let p = b[1]->PtrIncrement_0;
    let x = b[2]->Add_0;
    let n = ins.last()->Add_0;
    let v = ((n * x) % 255) as u8;
    let t1 = commands_tape(ins.drop_last(), t);
    let rest = ms.skip(3);
    let head = seq![ms[0], ms[1], ms[2]];
    assert(ms =~= head + rest);
    lemma_run_exprs_prefix(head, rest, t, f);
    lemma_run_exprs_append(head, rest, t, f);
    assert(head.drop_last() =~= seq![ms[0], ms[1]]);
    assert(seq![ms[0], ms[1]].drop_last() =~= seq![ms[0]]);
    assert(seq![ms[0]].drop_last() =~= Seq::<ExprModel>::empty());
    assert(ins =~= ins.drop_last().push(Instruction::Add(n)));
    let u = commands_tape(ins, t);
    assert(u == command_tape(Instruction::Add(n), t1));
    assert(ms[0] == ExprModel::Instructions(ins));
    lemma_single_run(ins, t, f);
    assert(run_exprs(seq![ms[0]], t, f) == Some(u));
    assert(w =~= seq![ExprModel::Instructions(b)]);
    assert(ms[1] == run_loop(b));
    assert(run_exprs(seq![ms[0], ms[1]], t, f) == run_expr(run_loop(b), u, f));
    let d = deltas(p as int, x as int, 0, 0, 0, 0);
    assert forall|u2: Tape| #[trigger] commands_tape(b, u2) == round_tape(d, u2) by {
        reveal_with_fuel(commands_tape, 5);
        let a = commands_tape(b, u2);
        let r = round_tape(d, u2);
        assert forall|i: int| #[trigger] (a.mem)(i) == (r.mem)(i) by {
            lemma_wrap_byte((u2.mem)(i));
        }
        assert(a.mem =~= r.mem);
        assert(a =~= r);
    }
    lemma_counting_loop(b, d, u, f);
    lemma_wrap_byte(n);
    assert(cell(u, 0) == n);
    let vt = rounds_tape(d, u, n as int);
    let sv = command_tape(Instruction::SetValue(p, v), t1);
    assert((n * x) % 255 == n * x);
    lemma_scale(n as int, -1);
    assert forall|i: int| #[trigger] (vt.mem)(i) == (sv.mem)(i) by {
        if i == t1.ptr {
            assert(d(0) == -1);
            assert(wrap(0) == 0);
        } else if i == t1.ptr + p {
            assert(d(p as int) == x);
            assert(n * (x as int) == n * x);
        } else {
            assert(d(i - t1.ptr) == 0);
            assert((n as int) * 0 == 0);
            lemma_wrap_byte((t1.mem)(i));
        }
    }
    assert(vt.mem =~= sv.mem);
    assert(vt =~= sv);
    let first = ins.drop_last().push(Instruction::SetValue(p, v));
    lemma_commands_append(first, s, t);
    assert(first.drop_last() =~= ins.drop_last());
    assert(commands_tape(first, t) == sv);
    let rw = seq![ExprModel::Instructions(first + s)];
    lemma_single_run(first + s, t, f);
    assert(run_exprs(rw, t, f) == Some(commands_tape(s, sv)));
    lemma_run_exprs_append(rw, rest, t, f);
    assert(set_value_rule(ms)->0 == rw + rest);
    assert(run_expr(run_loop(b), u, f) == Some(vt));
    assert(run_exprs(seq![ms[0], ms[1]], t, f) == Some(vt));
    assert(ms[2] == ExprModel::Instructions(s));
    assert(run_exprs(head, t, f) == run_expr(ms[2], vt, f));
    assert(run_exprs(head, t, f) == Some(commands_tape(s, vt)));
}

} // verus!
