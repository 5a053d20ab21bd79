//! What the passes over trees of nodes keep of a run.

use vstd::prelude::*;
use crate::instruction::{Instruction, Value, Tape, cell, run_instruction, mergeable, merge_rule, no_action,
    merge_changes_effect, lemma_merge_keeps_effect, lemma_no_action};
use crate::ir_semantics::moved;
use crate::nod_semantics::{run_nod, run_nods};
use crate::optimize::{nod_settle, merge_nods, shifted_by, simplified_push, merge_offsets, merge_offsets_fold,
    move_nodes, add_isize, sub_isize};
use crate::parse::NodModel;

verus! {

/// Every fusion that settling the end of `acc` makes is one that keeps the effect of the two
/// instructions (see `merge_changes_effect`).
pub open spec fn settle_exact(acc: Seq<NodModel>) -> bool
    decreases acc.len(),
{
    if acc.len() >= 2 && acc[acc.len() - 2] is Instruction && acc.last() is Instruction
        && mergeable(acc[acc.len() - 2]->Instruction_0, acc.last()->Instruction_0)
        && merge_rule(acc[acc.len() - 2]->Instruction_0, acc.last()->Instruction_0) is Some {
        let a = acc[acc.len() - 2]->Instruction_0;
        let b = acc.last()->Instruction_0;
        let m = merge_rule(a, b)->0;
        let front = acc.take(acc.len() - 2);
        !merge_changes_effect(a, b) && if no_action(m) {
            settle_exact(front)
        } else {
            settle_exact(front.push(NodModel::Instruction(m)))
        }
    } else {
        true
    }
}

/// Every fusion that `merge_nods` makes keeps the effect of the two instructions.
pub open spec fn merge_exact(ns: Seq<NodModel>) -> bool
    decreases ns.len(),
{
    if ns.len() == 0 {
        true
    } else {
        merge_exact(ns.drop_last()) && settle_exact(merge_nods(ns.drop_last()).push(ns.last()))
    }
}

pub(crate) proof fn lemma_run_nods_push(ns: Seq<NodModel>, n: NodModel, t: Tape, f: nat)
    ensures
        run_nods(ns.push(n), t, f) == match run_nods(ns, t, f) {
            Some(t1) => run_nod(n, t1, f),
            None => None,
        },
{
    assert(ns.push(n).drop_last() =~= ns);
}

proof fn lemma_nod_settle_keeps_runs(acc: Seq<NodModel>, t: Tape, f: nat)
    requires
        settle_exact(acc),
        run_nods(acc, t, f) is Some,
    ensures
        run_nods(nod_settle(acc), t, f) == run_nods(acc, t, f),
    decreases acc.len(),
{
    if acc.len() >= 2 && acc[acc.len() - 2] is Instruction && acc.last() is Instruction
        && mergeable(acc[acc.len() - 2]->Instruction_0, acc.last()->Instruction_0)
        && merge_rule(acc[acc.len() - 2]->Instruction_0, acc.last()->Instruction_0) is Some {
        let a = acc[acc.len() - 2]->Instruction_0;
        let b = acc.last()->Instruction_0;
        let m = merge_rule(a, b)->0;
        let front = acc.take(acc.len() - 2);
        assert(acc.drop_last().drop_last() =~= front);
        assert(acc.drop_last().last() == acc[acc.len() - 2]);
        assert(run_nods(acc, t, f) == match run_nods(acc.drop_last(), t, f) {
            Some(t2) => run_nod(acc.last(), t2, f),
            None => None,
        });
        assert(run_nods(acc.drop_last(), t, f) is Some);
        assert(run_nods(acc.drop_last(), t, f) == match run_nods(front, t, f) {
            Some(t2) => run_nod(acc.drop_last().last(), t2, f),
            None => None,
        });
        assert(run_nods(front, t, f) is Some);
        let t1 = run_nods(front, t, f)->0;
        assert(run_nod(NodModel::Instruction(a), t1, f) == Some(run_instruction(a, t1)));
        assert(run_nods(acc.drop_last(), t, f) == Some(run_instruction(a, t1)));
        assert(run_nods(acc, t, f) == Some(run_instruction(b, run_instruction(a, t1))));
        lemma_merge_keeps_effect(a, b, t1);
        if no_action(m) {
            lemma_no_action(m, t1);
            lemma_nod_settle_keeps_runs(front, t, f);
        } else {
            lemma_run_nods_push(front, NodModel::Instruction(m), t, f);
            lemma_nod_settle_keeps_runs(front.push(NodModel::Instruction(m)), t, f);
        }
    }
}

/// Fusing instructions keeps what the nodes do, wherever every fusion keeps the effect of its
/// two instructions: a run that finishes gives the same tape with the same fuel.
pub proof fn lemma_merge_nods_keeps_runs(ns: Seq<NodModel>, t: Tape, f: nat)
    requires
        merge_exact(ns),
        run_nods(ns, t, f) is Some,
    ensures
        run_nods(merge_nods(ns), t, f) == run_nods(ns, t, f),
    decreases ns.len(),
{
    if ns.len() > 0 {
        let rest = ns.drop_last();
        lemma_merge_nods_keeps_runs(rest, t, f);
        lemma_run_nods_push(merge_nods(rest), ns.last(), t, f);
        lemma_nod_settle_keeps_runs(merge_nods(rest).push(ns.last()), t, f);
    }
}

pub open spec fn fits_isize(v: int) -> bool {
    isize::MIN <= v <= isize::MAX
}

/// The offsets that moving an instruction `by` cells further forms stay within `isize`.
pub open spec fn shift_fits(i: Instruction, by: isize) -> bool {
    match i {
        Instruction::Add(o, v) | Instruction::Sub(o, v) | Instruction::SetValue(o, v) =>
            fits_isize(by + o) && (v matches Value::Memory(m) ==> fits_isize(by + m)),
        Instruction::MulAdd(to, from, _) | Instruction::MulSub(to, from, _) => fits_isize(by + to) && fits_isize(by + from),
        Instruction::Output(o, _) | Instruction::Input(o, _) => fits_isize(by + o),
        _ => true,
    }
}

/// The pointer moves that `merge_offsets` holds back, and the offsets it forms, stay within
/// `isize`.
pub open spec fn moves_fit(ns: Seq<NodModel>) -> bool
    decreases ns, 0int,
{
    if ns.len() == 0 {
        true
    } else {
        let off = merge_offsets_fold(ns.drop_last()).1;
        moves_fit(ns.drop_last()) && match ns.last() {
            NodModel::Loop(body) => moves_fit(body),
            NodModel::Instruction(Instruction::PtrIncrement(inc)) => inc <= isize::MAX && fits_isize(off + inc),
            NodModel::Instruction(Instruction::PtrDecrement(dec)) => dec <= isize::MAX && fits_isize(off - dec),
            NodModel::Instruction(i) => shift_fits(i, off),
        }
    }
}

/// An instruction moved `by` cells further does, at a pointer, what the instruction does at
/// the pointer moved by `by`.
proof fn lemma_shifted_instruction(i: Instruction, by: isize, u: Tape)
    requires
        !(i is PtrIncrement),
        !(i is PtrDecrement),
        shift_fits(i, by),
    ensures
        run_instruction(i, moved(u, by as int)) == moved(run_instruction(shifted_by(i, by), u), by as int),
{
    let a = run_instruction(i, moved(u, by as int));
    let b = moved(run_instruction(shifted_by(i, by), u), by as int);
    match i {
        Instruction::Add(o, v) | Instruction::Sub(o, v) | Instruction::SetValue(o, v) => {
            if let Value::Memory(m) = v {
                assert(add_isize(by, m) == by + m);
            }
            assert(add_isize(by, o) == by + o);
            assert(a.mem =~= b.mem);
        },
        Instruction::MulAdd(to, from, x) | Instruction::MulSub(to, from, x) => {
            assert(add_isize(by, to) == by + to);
            assert(add_isize(by, from) == by + from);
            assert(a.mem =~= b.mem);
        },
        Instruction::Output(o, n) => {
            assert(add_isize(by, o) == by + o);
            assert(a.out =~= b.out);
        },
        Instruction::Input(o, n) => {
            assert(add_isize(by, o) == by + o);
            assert(a.mem =~= b.mem);
        },
        _ => {},
    }
    assert(a =~= b);
}

pub(crate) proof fn lemma_move_nodes_runs(off: isize, u: Tape, f: nat)
    ensures
        run_nods(move_nodes(off), u, f) == Some(moved(u, off as int)),
{
    let ns = move_nodes(off);
    if off != 0 {
        assert(ns =~= Seq::<NodModel>::empty().push(ns[0]));
        lemma_run_nods_push(Seq::<NodModel>::empty(), ns[0], u, f);
        assert(run_nod(ns[0], u, f) =~= Some(moved(u, off as int)));
    } else {
        assert(moved(u, 0) =~= u);
    }
}

pub(crate) proof fn lemma_run_nods_append(a: Seq<NodModel>, b: Seq<NodModel>, t: Tape, f: nat)
    requires
        run_nods(a, t, f) is Some,
    ensures
        run_nods(a + b, t, f) == run_nods(b, run_nods(a, t, f)->0, f),
    decreases b.len(),
{
    if b.len() == 0 {
        assert(a + b =~= a);
    } else {
        lemma_run_nods_append(a, b.drop_last(), t, f);
        assert((a + b).drop_last() =~= a + b.drop_last());
        assert((a + b).last() == b.last());
    }
}

proof fn lemma_run_nods_prefix(ns: Seq<NodModel>, t: Tape, f: nat)
    requires
        ns.len() > 0,
        run_nods(ns, t, f) is Some,
    ensures
        run_nods(ns.drop_last(), t, f) is Some,
        run_nod(ns.last(), run_nods(ns.drop_last(), t, f)->0, f) == run_nods(ns, t, f),
{
}

proof fn lemma_offset_loop_keeps_runs(n: NodModel, t: Tape, f: nat)
    requires
        n is Loop,
        moves_fit(n->Loop_0),
        run_nod(n, t, f) is Some,
    ensures
        run_nod(NodModel::Loop(merge_offsets(n->Loop_0)), t, f) == run_nod(n, t, f),
    decreases f, n, 1int,
{
    let body = n->Loop_0;
    if cell(t, 0) != 0 {
        let g = (f - 1) as nat;
        lemma_merge_offsets_keeps_runs(body, t, g);
        let t2 = run_nods(body, t, g)->0;
        lemma_offset_loop_keeps_runs(n, t2, g);
    }
}

proof fn lemma_offsets_fold_runs(ns: Seq<NodModel>, t: Tape, f: nat)
    requires
        moves_fit(ns),
        run_nods(ns, t, f) is Some,
    ensures
        run_nods(merge_offsets_fold(ns).0, t, f) is Some,
        run_nods(ns, t, f) == Some(moved(run_nods(merge_offsets_fold(ns).0, t, f)->0, merge_offsets_fold(ns).1 as int)),
    decreases f, ns, 0int,
{
    if ns.len() == 0 {
        assert(moved(t, 0) =~= t);
    } else {
        let rest = ns.drop_last();
        let last = ns.last();
        lemma_run_nods_prefix(ns, t, f);
        lemma_offsets_fold_runs(rest, t, f);
        let (xs, off) = merge_offsets_fold(rest);
        let u = run_nods(xs, t, f)->0;
        let v = moved(u, off as int);
        assert(run_nods(rest, t, f) == Some(v));
        let n2 = match last {
            NodModel::Loop(body) => NodModel::Loop(merge_offsets(body)),
            other => other,
        };
        assert(merge_offsets_fold(ns) == simplified_push((xs, off), n2));
        match last {
            NodModel::Loop(body) => {
                lemma_offset_loop_keeps_runs(last, v, f);
                lemma_move_nodes_runs(off, u, f);
                lemma_run_nods_append(xs, move_nodes(off), t, f);
                lemma_run_nods_append(xs + move_nodes(off), seq![n2], t, f);
                assert(seq![n2] =~= Seq::<NodModel>::empty().push(n2));
                lemma_run_nods_push(Seq::<NodModel>::empty(), n2, v, f);
                let w = run_nod(last, v, f)->0;
                assert(moved(w, 0) =~= w);
            },
            NodModel::Instruction(Instruction::PtrIncrement(inc)) => {
                assert(add_isize(off, inc as isize) == off + inc);
                assert(run_instruction(Instruction::PtrIncrement(inc), v) =~= moved(u, off + inc));
            },
            NodModel::Instruction(Instruction::PtrDecrement(dec)) => {
                assert(sub_isize(off, dec as isize) == off - dec);
                assert(run_instruction(Instruction::PtrDecrement(dec), v) =~= moved(u, off - dec));
            },
            NodModel::Instruction(i) => {
                lemma_shifted_instruction(i, off, u);
                lemma_run_nods_push(xs, NodModel::Instruction(shifted_by(i, off)), t, f);
            },
        }
    }
}

/// Folding pointer moves into offsets keeps what the nodes do, where the held moves and the
/// offsets formed stay within `isize`: a run that finishes gives the same tape with the same
/// fuel.
pub proof fn lemma_merge_offsets_keeps_runs(ns: Seq<NodModel>, t: Tape, f: nat)
    requires
        moves_fit(ns),
        run_nods(ns, t, f) is Some,
    ensures
        run_nods(merge_offsets(ns), t, f) == run_nods(ns, t, f),
    decreases f, ns, 1int,
{
    lemma_offsets_fold_runs(ns, t, f);
    let (xs, off) = merge_offsets_fold(ns);
    let u = run_nods(xs, t, f)->0;
    lemma_run_nods_append(xs, move_nodes(off), t, f);
    lemma_move_nodes_runs(off, u, f);
}

} // verus!
