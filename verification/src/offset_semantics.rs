//! What the offset pass over trees of nodes keeps of a run: the instructions it collects run
//! by run, fused per cell and written back in the order they came, do what the run did, as
//! long as the reads and writes of each run address one cell; and a loop it writes as
//! multiplications does what the loop did, as long as the loop counts its counter down.

use vstd::prelude::*;
use crate::instruction::{token_instruction, Instruction, Value, Tape, cell, wrap, run_instruction, mergeable, merge_rule, lemma_wrap_byte,
    no_action, merge_changes_effect, lemma_merge_keeps_effect, lemma_no_action};
use crate::ir_semantics::moved;
use crate::nod_passes::{fits_isize, moves_fit, lemma_merge_offsets_keeps_runs, lemma_run_nods_append, lemma_move_nodes_runs, lemma_run_nods_push};
use crate::nod_semantics::{run_nod, run_nods};
use crate::optimize_new_node::instrs;
use crate::parse::{Nod, NodModel, Token, nod_model, nods_model, nod_raw, nods_raw, instruction_token,
    lemma_nods_model_len};

use crate::nod_rewrites::{instructions_tape, lemma_instructions_front, lemma_instructions_append, lemma_instrs_runs, lemma_scale,
    lemma_nod_counting_loop};
use crate::optimize::{ins_settle, placed, place_list, collect, OTable, OState, table_push, opos, state_push,
    collectable, add_isize, sub_isize, lemma_opos_bounds, insert_by_id, sort_by_id, into_model, move_nodes, empty_state, io_here, loop_shape, finish,
    oo_fold, oo_items, all_collectable, nod_collectable, loop_model, mul_table, mul_list, mul_entry, merge_offsets};
use crate::optimize::rewrites::{round_tape, rounds_tape};

verus! {

/// A collected instruction once placed: a change by a constant, a write or a read, at an offset.
pub open spec fn simple(i: Instruction) -> bool {
    match i {
        Instruction::Add(_, Value::Const(_)) | Instruction::Sub(_, Value::Const(_)) => true,
        Instruction::Output(_, _) | Instruction::Input(_, _) => true,
        _ => false,
    }
}

/// The offset a simple instruction addresses.
pub open spec fn key_of(i: Instruction) -> int {
    match i {
        Instruction::Add(o, _) | Instruction::Sub(o, _) | Instruction::Output(o, _) | Instruction::Input(o, _) => o as int,
        _ => 0,
    }
}

/// Whether an instruction writes or reads.
pub open spec fn is_io(i: Instruction) -> bool {
    i is Output || i is Input
}

/// Simple instructions at different offsets, not both reading or writing, may run in either order.
proof fn lemma_commute(a: Instruction, b: Instruction, t: Tape)
    requires
        simple(a),
        simple(b),
        key_of(a) != key_of(b),
        !(is_io(a) && is_io(b)),
    ensures
        run_instruction(b, run_instruction(a, t)) == run_instruction(a, run_instruction(b, t)),
{
    let x = run_instruction(b, run_instruction(a, t));
    let y = run_instruction(a, run_instruction(b, t));
    assert(x.mem =~= y.mem);
    assert(x.out =~= y.out);
    assert(x.input =~= y.input);
    assert(x =~= y);
}

/// One simple instruction moves back past others at other offsets, none of which reads or
/// writes when it does.
pub(crate) proof fn lemma_commute_past(ys: Seq<Instruction>, x: Instruction, t: Tape)
    requires
        simple(x),
        forall|j: int| 0 <= j < ys.len() ==> simple(#[trigger] ys[j]) && key_of(ys[j]) != key_of(x)
            && !(is_io(x) && is_io(ys[j])),
    ensures
        instructions_tape(ys.push(x), t) == instructions_tape(seq![x] + ys, t),
    decreases ys.len(),
{
    if ys.len() == 0 {
        assert(seq![x] + ys =~= ys.push(x));
    } else {
        let front = ys.drop_last();
        let last = ys.last();
        assert forall|j: int| 0 <= j < front.len() implies simple(#[trigger] front[j]) && key_of(front[j]) != key_of(x)
            && !(is_io(x) && is_io(front[j])) by {
            assert(front[j] == ys[j]);
        }
        lemma_commute_past(front, x, t);
        assert(ys.push(x).drop_last() =~= ys);
        assert(front.push(x).drop_last() =~= front);
        assert((seq![x] + ys).drop_last() =~= seq![x] + front);
        assert((seq![x] + ys).last() == last);
        assert(simple(ys[ys.len() - 1]));
        let tf = instructions_tape(front, t);
        lemma_commute(last, x, tf);
        assert(instructions_tape(ys, t) == run_instruction(last, tf));
        assert(instructions_tape(ys.push(x), t) == run_instruction(x, instructions_tape(ys, t)));
        assert(instructions_tape(front.push(x), t) == run_instruction(x, tf));
        assert(instructions_tape(seq![x] + ys, t) == run_instruction(last, instructions_tape(seq![x] + front, t)));
    }
}

/// A collected instruction: a change by a constant, a write or a read of the current cell.
pub open spec fn raw(i: Instruction) -> bool {
    simple(i) && key_of(i) == 0
}

pub open spec fn entry_instrs(l: Seq<(usize, Instruction)>) -> Seq<Instruction> {
    l.map_values(|e: (usize, Instruction)| e.1)
}

proof fn lemma_entry_instrs_push(l: Seq<(usize, Instruction)>, e: (usize, Instruction))
    ensures
        entry_instrs(l.push(e)) == entry_instrs(l).push(e.1),
{
    assert(entry_instrs(l.push(e)) =~= entry_instrs(l).push(e.1));
}

proof fn lemma_place_list_push(key: isize, l: Seq<(usize, Instruction)>, e: (usize, Instruction))
    ensures
        place_list(key, l.push(e)) == place_list(key, l).push((e.0, placed(e.1, key))),
{
    assert(place_list(key, l.push(e)) =~= place_list(key, l).push((e.0, placed(e.1, key))));
}

/// Fusing the collected instructions of one cell keeps what they do there.
proof fn lemma_settle_keeps_tape(key: isize, acc: Seq<(usize, Instruction)>, io_allowed: bool, t: Tape)
    requires
        forall|j: int| 0 <= j < acc.len() ==> raw(#[trigger] acc[j].1) && (is_io(acc[j].1) ==> io_allowed),
    ensures
        forall|j: int| 0 <= j < ins_settle(acc).len() ==> raw(#[trigger] ins_settle(acc)[j].1)
            && (is_io(ins_settle(acc)[j].1) ==> io_allowed),
        instructions_tape(entry_instrs(place_list(key, ins_settle(acc))), t)
            == instructions_tape(entry_instrs(place_list(key, acc)), t),
    decreases acc.len(),
{
    if acc.len() >= 2 && mergeable(acc[acc.len() - 2].1, acc.last().1)
        && merge_rule(acc[acc.len() - 2].1, acc.last().1) is Some {
        let a = acc[acc.len() - 2].1;
        let b = acc.last().1;
        let m = merge_rule(a, b)->0;
        let front = acc.take(acc.len() - 2);
        assert(raw(acc[acc.len() - 2].1) && (is_io(acc[acc.len() - 2].1) ==> io_allowed));
        assert(raw(acc[acc.len() - 1].1) && (is_io(acc[acc.len() - 1].1) ==> io_allowed));
        assert forall|j: int| 0 <= j < front.len() implies raw(#[trigger] front[j].1) && (is_io(front[j].1) ==> io_allowed) by {
            assert(front[j] == acc[j]);
        }
        let pa = placed(a, key);
        let pb = placed(b, key);
        let pm = placed(m, key);
        assert(raw(m));
        assert(merge_rule(pa, pb) == Some(pm));
        assert(mergeable(pa, pb));
        assert(!merge_changes_effect(pa, pb));
        let t0 = instructions_tape(entry_instrs(place_list(key, front)), t);
        lemma_merge_keeps_effect(pa, pb, t0);
        assert(acc =~= front.push(acc[acc.len() - 2]).push(acc.last()));
        lemma_place_list_push(key, front, acc[acc.len() - 2]);
        lemma_place_list_push(key, front.push(acc[acc.len() - 2]), acc.last());
        lemma_entry_instrs_push(place_list(key, front), (acc[acc.len() - 2].0, pa));
        lemma_entry_instrs_push(place_list(key, front).push((acc[acc.len() - 2].0, pa)), (acc.last().0, pb));
        let e1 = entry_instrs(place_list(key, front));
        assert(e1.push(pa).drop_last() =~= e1);
        assert(e1.push(pa).push(pb).drop_last() =~= e1.push(pa));
        assert(entry_instrs(place_list(key, acc)) == e1.push(pa).push(pb));
        assert(instructions_tape(e1.push(pa), t) == run_instruction(pa, t0));
        assert(instructions_tape(e1.push(pa).push(pb), t) == run_instruction(pb, instructions_tape(e1.push(pa), t)));
        assert(instructions_tape(entry_instrs(place_list(key, acc)), t) == run_instruction(pb, run_instruction(pa, t0)));
        if no_action(m) {
            lemma_no_action(pm, t0);
            lemma_settle_keeps_tape(key, front, io_allowed, t);
        } else {
            let f2 = front.push((acc[acc.len() - 2].0, m));
            assert(is_io(m) ==> io_allowed);
            assert forall|j: int| 0 <= j < f2.len() implies raw(#[trigger] f2[j].1) && (is_io(f2[j].1) ==> io_allowed) by {
                if j < front.len() {
                    assert(f2[j] == front[j]);
                }
            }
            lemma_place_list_push(key, front, (acc[acc.len() - 2].0, m));
            lemma_entry_instrs_push(place_list(key, front), (acc[acc.len() - 2].0, pm));
            assert(e1.push(pm).drop_last() =~= e1);
            assert(instructions_tape(e1.push(pm), t) == run_instruction(pm, t0));
            lemma_settle_keeps_tape(key, f2, io_allowed, t);
        }
    }
}

/// The entry of one offset holds collected instructions, and reads or writes only where the
/// run reads and writes (`io`).
pub open spec fn entry_ok(e: (isize, Seq<(usize, Instruction)>), io: Option<isize>) -> bool {
    forall|j: int| 0 <= j < e.1.len() ==> raw(#[trigger] e.1[j].1) && (is_io(e.1[j].1) ==> io == Some(e.0))
}

/// A table ordered by offset whose entries are all in order.
pub open spec fn table_ok(t: OTable, io: Option<isize>) -> bool {
    &&& forall|i: int, j: int| 0 <= i < j < t.len() ==> t[i].0 < t[j].0
    &&& forall|k: int| 0 <= k < t.len() ==> entry_ok(#[trigger] t[k], io)
}

proof fn lemma_collect_split(t: OTable, q: int)
    requires
        0 <= q <= t.len(),
    ensures
        collect(t) == collect(t.take(q)) + collect(t.skip(q)),
    decreases t.len(),
{
    if q == t.len() {
        assert(t.take(q) =~= t);
        assert(t.skip(q) =~= Seq::<(isize, Seq<(usize, Instruction)>)>::empty());
        assert(collect(t) + Seq::<(usize, Instruction)>::empty() =~= collect(t));
    } else {
        lemma_collect_split(t.drop_last(), q);
        assert(t.drop_last().take(q) =~= t.take(q));
        assert(t.skip(q).drop_last() =~= t.drop_last().skip(q));
        assert(t.skip(q).last() == t.last());
        assert(collect(t.skip(q)) == collect(t.drop_last().skip(q)) + place_list(t.last().0, t.last().1));
    }
}

proof fn lemma_entry_instrs_add(a: Seq<(usize, Instruction)>, b: Seq<(usize, Instruction)>)
    ensures
        entry_instrs(a + b) == entry_instrs(a) + entry_instrs(b),
{
    assert(entry_instrs(a + b) =~= entry_instrs(a) + entry_instrs(b));
}

/// The collected instructions of entries at offsets other than `p` are simple, address their
/// entry's offset, and read or write only at `io`.
proof fn lemma_collect_keys(r: OTable, p: isize, io: Option<isize>)
    requires
        forall|k: int| 0 <= k < r.len() ==> r[k].0 != p && entry_ok(#[trigger] r[k], io),
    ensures
        forall|j: int| 0 <= j < entry_instrs(collect(r)).len() ==> simple(#[trigger] entry_instrs(collect(r))[j])
            && key_of(entry_instrs(collect(r))[j]) != p
            && (is_io(entry_instrs(collect(r))[j]) ==> io == Some(key_of(entry_instrs(collect(r))[j]) as isize)),
    decreases r.len(),
{
    if r.len() > 0 {
        let front = r.drop_last();
        assert forall|k: int| 0 <= k < front.len() implies front[k].0 != p && entry_ok(#[trigger] front[k], io) by {
            assert(front[k] == r[k]);
        }
        lemma_collect_keys(front, p, io);
        let e = r.last();
        assert(e.0 != p && entry_ok(r[r.len() - 1], io));
        let a = entry_instrs(collect(front));
        let b = entry_instrs(place_list(e.0, e.1));
        lemma_entry_instrs_add(collect(front), place_list(e.0, e.1));
        assert forall|j: int| 0 <= j < (a + b).len() implies simple(#[trigger] (a + b)[j]) && key_of((a + b)[j]) != p
            && (is_io((a + b)[j]) ==> io == Some(key_of((a + b)[j]) as isize)) by {
            if j >= a.len() {
                let k = j - a.len();
                assert(b[k] == placed(e.1[k].1, e.0));
                assert(raw(e.1[k].1) && (is_io(e.1[k].1) ==> io == Some(e.0)));
            }
        }
    }
}

pub(crate) proof fn lemma_core(c1: Seq<Instruction>, p: Seq<Instruction>, p2: Seq<Instruction>, c2: Seq<Instruction>, x: Instruction, t: Tape)
    requires
        simple(x),
        instructions_tape(p2, instructions_tape(c1, t)) == instructions_tape(p.push(x), instructions_tape(c1, t)),
        forall|j: int| 0 <= j < c2.len() ==> simple(#[trigger] c2[j]) && key_of(c2[j]) != key_of(x)
            && !(is_io(x) && is_io(c2[j])),
    ensures
        instructions_tape(c1 + p2 + c2, t) == run_instruction(x, instructions_tape(c1 + p + c2, t)),
{
    let b = instructions_tape(c1, t);
    lemma_instructions_append(c1 + p2, c2, t);
    lemma_instructions_append(c1, p2, t);
    lemma_instructions_append(c1 + p, c2, t);
    lemma_instructions_append(c1, p, t);
    let t0 = instructions_tape(p, b);
    assert(p.push(x).drop_last() =~= p);
    assert(instructions_tape(p.push(x), b) == run_instruction(x, t0));
    lemma_commute_past(c2, x, t0);
    assert(c2.push(x).drop_last() =~= c2);
    assert(instructions_tape(c2.push(x), t0) == run_instruction(x, instructions_tape(c2, t0)));
    lemma_instructions_front(x, c2, t0);
}

proof fn lemma_collect_one(e: (isize, Seq<(usize, Instruction)>))
    ensures
        collect(seq![e]) == place_list(e.0, e.1),
{
    let z = seq![e].drop_last();
    assert(z =~= Seq::<(isize, Seq<(usize, Instruction)>)>::empty());
    assert(collect(z) =~= Seq::<(usize, Instruction)>::empty());
    assert(seq![e].last() == e);
    assert(collect(seq![e]) == collect(z) + place_list(e.0, e.1));
    assert(Seq::<(usize, Instruction)>::empty() + place_list(e.0, e.1) =~= place_list(e.0, e.1));
}

/// Where the reads and writes of a run are after one more instruction at offset `p`.
pub open spec fn io_after(io: Option<isize>, i: Instruction, p: isize) -> Option<isize> {
    if is_io(i) { Some(p) } else { io }
}

/// Entries ordered by offset, each holding collected instructions that read or write only at `io`.
pub open spec fn keys_ok(t: OTable, io: Option<isize>) -> bool {
    &&& forall|i: int, j: int| 0 <= i < j < t.len() ==> t[i].0 < t[j].0
    &&& forall|k: int| 0 <= k < t.len() ==> entry_ok(#[trigger] t[k], io)
}

proof fn lemma_splice_tape(c1: Seq<(usize, Instruction)>, old_mid: Seq<(usize, Instruction)>,
    new_mid: Seq<(usize, Instruction)>, cr: Seq<(usize, Instruction)>, x: Instruction, t: Tape)
    requires
        simple(x),
        instructions_tape(entry_instrs(new_mid), instructions_tape(entry_instrs(c1), t))
            == instructions_tape(entry_instrs(old_mid).push(x), instructions_tape(entry_instrs(c1), t)),
        forall|j: int| 0 <= j < entry_instrs(cr).len() ==> simple(#[trigger] entry_instrs(cr)[j])
            && key_of(entry_instrs(cr)[j]) != key_of(x) && !(is_io(x) && is_io(entry_instrs(cr)[j])),
    ensures
        instructions_tape(entry_instrs(c1 + new_mid + cr), t)
            == run_instruction(x, instructions_tape(entry_instrs(c1 + old_mid + cr), t)),
{
    lemma_entry_instrs_add(c1, old_mid);
    lemma_entry_instrs_add(c1 + old_mid, cr);
    lemma_entry_instrs_add(c1, new_mid);
    lemma_entry_instrs_add(c1 + new_mid, cr);
    lemma_core(entry_instrs(c1), entry_instrs(old_mid), entry_instrs(new_mid), entry_instrs(cr), x, t);
}

#[verifier::spinoff_prover]
#[verifier::rlimit(40)]
proof fn lemma_push_found(table: OTable, io: Option<isize>, p: isize, id: usize, i: Instruction, t: Tape)
    requires
        keys_ok(table, io),
        opos(table, p) < table.len(),
        table[opos(table, p)].0 == p,
        0 <= opos(table, p),
        raw(i),
        is_io(i) ==> (io is None || io == Some(p)),
    ensures
        keys_ok(table_push(table, p, id, i), io_after(io, i, p)),
        instructions_tape(entry_instrs(collect(table_push(table, p, id, i))), t)
            == run_instruction(placed(i, p), instructions_tape(entry_instrs(collect(table)), t)),
{
    let q = opos(table, p);
    let io2 = io_after(io, i, p);
    let x = placed(i, p);
    let n = table_push(table, p, id, i);
    lemma_collect_split(table, q);
    lemma_collect_split(n, q);
    let c1 = collect(table.take(q));
    let l = table[q].1;
    let l2 = ins_settle(l.push((id, i)));
    assert(n == table.update(q, (p, l2)));
    assert(entry_ok(table[q], io));
    assert forall|j: int| 0 <= j < l.push((id, i)).len() implies raw(#[trigger] l.push((id, i))[j].1)
        && (is_io(l.push((id, i))[j].1) ==> io2 == Some(p)) by {
        if j < l.len() {
            assert(l.push((id, i))[j] == l[j]);
        }
    }
    lemma_settle_keeps_tape(p, l.push((id, i)), io2 == Some(p), instructions_tape(entry_instrs(c1), t));
    assert(keys_ok(n, io2)) by {
        assert forall|k: int| 0 <= k < n.len() implies entry_ok(#[trigger] n[k], io2) by {
            if k != q {
                assert(n[k] == table[k]);
                assert(entry_ok(table[k], io));
            }
        }
    }
    let rest = table.skip(q + 1);
    assert(table.skip(q) =~= seq![table[q]] + rest);
    assert(n.skip(q) =~= seq![(p, l2)] + rest);
    assert(n.take(q) =~= table.take(q));
    lemma_collect_split(seq![table[q]] + rest, 1);
    lemma_collect_split(seq![(p, l2)] + rest, 1);
    assert((seq![table[q]] + rest).take(1) =~= seq![table[q]]);
    assert((seq![table[q]] + rest).skip(1) =~= rest);
    assert((seq![(p, l2)] + rest).take(1) =~= seq![(p, l2)]);
    assert((seq![(p, l2)] + rest).skip(1) =~= rest);
    lemma_collect_one(table[q]);
    lemma_collect_one((p, l2));
    assert forall|k: int| 0 <= k < rest.len() implies rest[k].0 != p && entry_ok(#[trigger] rest[k], io) by {
        assert(rest[k] == table[q + 1 + k]);
        assert(table[q].0 < table[q + 1 + k].0);
    }
    lemma_collect_keys(rest, p, io);
    let c2 = entry_instrs(collect(rest));
    assert forall|j: int| 0 <= j < c2.len() implies simple(#[trigger] c2[j]) && key_of(c2[j]) != key_of(x)
        && !(is_io(x) && is_io(c2[j])) by {
        assert(key_of(x) == p);
    }
    let pl = place_list(p, l);
    let cr = collect(rest);
    lemma_place_list_push(p, l, (id, i));
    lemma_entry_instrs_push(pl, (id, x));
    assert(collect(table) =~= c1 + pl + cr);
    assert(collect(n) =~= c1 + place_list(p, l2) + cr);
    lemma_splice_tape(c1, pl, place_list(p, l2), cr, x, t);
}

#[verifier::spinoff_prover]
#[verifier::rlimit(40)]
proof fn lemma_push_new(table: OTable, io: Option<isize>, p: isize, id: usize, i: Instruction, t: Tape)
    requires
        keys_ok(table, io),
        0 <= opos(table, p) <= table.len(),
        forall|j: int| 0 <= j < opos(table, p) ==> table[j].0 < p,
        opos(table, p) < table.len() ==> table[opos(table, p)].0 > p,
        raw(i),
        is_io(i) ==> (io is None || io == Some(p)),
    ensures
        keys_ok(table_push(table, p, id, i), io_after(io, i, p)),
        instructions_tape(entry_instrs(collect(table_push(table, p, id, i))), t)
            == run_instruction(placed(i, p), instructions_tape(entry_instrs(collect(table)), t)),
{
    let q = opos(table, p);
    let io2 = io_after(io, i, p);
    let x = placed(i, p);
    let n = table_push(table, p, id, i);
    lemma_collect_split(table, q);
    lemma_collect_split(n, q);
    let c1 = collect(table.take(q));
    let e = (p, seq![(id, i)]);
    assert(n == table.insert(q, e));
    assert(keys_ok(n, io2)) by {
        assert forall|a: int, b: int| 0 <= a < b < n.len() implies n[a].0 < n[b].0 by {
            if b < q {
            } else if b == q {
            } else if a == q {
                assert(n[b] == table[b - 1]);
                assert(table[q].0 <= table[b - 1].0 || b - 1 == q);
            } else if a < q {
                assert(n[b] == table[b - 1]);
                assert(table[q].0 <= table[b - 1].0 || b - 1 == q);
            } else {
                assert(n[a] == table[a - 1] && n[b] == table[b - 1]);
            }
        }
        assert forall|k: int| 0 <= k < n.len() implies entry_ok(#[trigger] n[k], io2) by {
            if k < q {
                assert(n[k] == table[k]);
                assert(entry_ok(table[k], io));
            } else if k > q {
                assert(n[k] == table[k - 1]);
                assert(entry_ok(table[k - 1], io));
            }
        }
    }
    let rest = table.skip(q);
    assert(n.skip(q) =~= seq![e] + rest);
    assert(n.take(q) =~= table.take(q));
    lemma_collect_split(seq![e] + rest, 1);
    assert((seq![e] + rest).take(1) =~= seq![e]);
    assert((seq![e] + rest).skip(1) =~= rest);
    lemma_collect_one(e);
    assert forall|k: int| 0 <= k < rest.len() implies rest[k].0 != p && entry_ok(#[trigger] rest[k], io) by {
        assert(rest[k] == table[q + k]);
        if k > 0 {
            assert(table[q].0 < table[q + k].0);
        }
    }
    lemma_collect_keys(rest, p, io);
    let c2 = entry_instrs(collect(rest));
    assert forall|j: int| 0 <= j < c2.len() implies simple(#[trigger] c2[j]) && key_of(c2[j]) != key_of(x)
        && !(is_io(x) && is_io(c2[j])) by {
        assert(key_of(x) == p);
    }
    let pe = place_list(p, seq![(id, i)]);
    let cr = collect(rest);
    let em = Seq::<(usize, Instruction)>::empty();
    assert(entry_instrs(pe) =~= entry_instrs(em).push(x));
    assert(collect(table) =~= c1 + em + cr);
    assert(collect(n) =~= c1 + pe + cr);
    lemma_splice_tape(c1, em, pe, cr, x, t);
}

/// Collecting one more instruction into the table does to the table's tape what running the
/// instruction at its offset does.
proof fn lemma_push_tape(table: OTable, io: Option<isize>, p: isize, id: usize, i: Instruction, t: Tape)
    requires
        keys_ok(table, io),
        raw(i),
        is_io(i) ==> (io is None || io == Some(p)),
    ensures
        keys_ok(table_push(table, p, id, i), io_after(io, i, p)),
        instructions_tape(entry_instrs(collect(table_push(table, p, id, i))), t)
            == run_instruction(placed(i, p), instructions_tape(entry_instrs(collect(table)), t)),
{
    lemma_opos_bounds(table, p);
    let q = opos(table, p);
    if q < table.len() && table[q].0 == p {
        lemma_push_found(table, io, p, id, i, t);
    } else {
        lemma_push_new(table, io, p, id, i, t);
    }
}

/// Numbers that rise along a list and stay at most `b`.
pub open spec fn ids_ok(l: Seq<(usize, Instruction)>, b: int) -> bool {
    &&& forall|i: int, j: int| 0 <= i < j < l.len() ==> l[i].0 < l[j].0
    &&& forall|j: int| 0 <= j < l.len() ==> l[j].0 <= b
}

pub open spec fn table_ids(t: OTable, b: int) -> bool {
    forall|k: int| 0 <= k < t.len() ==> ids_ok(#[trigger] t[k].1, b)
}

/// Each offset holds at most one instruction.
pub open spec fn table_small(t: OTable) -> bool {
    forall|k: int| 0 <= k < t.len() ==> (#[trigger] t[k]).1.len() <= 1
}

/// What holds of the collected state of a run that reads and writes at `io`.
pub open spec fn state_ok(st: OState, io: Option<isize>) -> bool {
    &&& keys_ok(st.table, io)
    &&& table_ids(st.table, st.count as int)
    &&& (io is None ==> table_small(st.table))
}

proof fn lemma_settle_ids(acc: Seq<(usize, Instruction)>, b: int)
    requires
        ids_ok(acc, b),
    ensures
        ids_ok(ins_settle(acc), b),
    decreases acc.len(),
{
    if acc.len() >= 2 && mergeable(acc[acc.len() - 2].1, acc.last().1)
        && merge_rule(acc[acc.len() - 2].1, acc.last().1) is Some {
        let m = merge_rule(acc[acc.len() - 2].1, acc.last().1)->0;
        let front = acc.take(acc.len() - 2);
        assert(ids_ok(front, b)) by {
            assert forall|i: int, j: int| 0 <= i < j < front.len() implies front[i].0 < front[j].0 by {
                assert(front[i] == acc[i] && front[j] == acc[j]);
            }
            assert forall|j: int| 0 <= j < front.len() implies front[j].0 <= b by {
                assert(front[j] == acc[j]);
            }
        }
        if no_action(m) {
            lemma_settle_ids(front, b);
        } else {
            let f2 = front.push((acc[acc.len() - 2].0, m));
            assert(ids_ok(f2, b)) by {
                assert forall|i: int, j: int| 0 <= i < j < f2.len() implies f2[i].0 < f2[j].0 by {
                    assert(f2[i] == acc[i]);
                    if j < front.len() {
                        assert(f2[j] == acc[j]);
                    }
                }
                assert forall|j: int| 0 <= j < f2.len() implies f2[j].0 <= b by {
                    if j < front.len() {
                        assert(f2[j] == acc[j]);
                    }
                }
            }
            lemma_settle_ids(f2, b);
        }
    }
}

proof fn lemma_settle_small(l: Seq<(usize, Instruction)>, x: (usize, Instruction))
    requires
        l.len() <= 1,
        forall|j: int| 0 <= j < l.len() ==> raw(#[trigger] l[j].1) && !is_io(l[j].1),
        raw(x.1),
        !is_io(x.1),
    ensures
        ins_settle(l.push(x)).len() <= 1,
{
    let acc = l.push(x);
    if l.len() == 1 {
        assert(raw(l[0].1) && !is_io(l[0].1));
        assert(acc[0] == l[0]);
        assert(acc.last() == x);
        assert(mergeable(acc[0].1, x.1));
        assert(merge_rule(acc[0].1, x.1) is Some);
        let m = merge_rule(acc[0].1, x.1)->0;
        let front = acc.take(0);
        assert(front =~= Seq::<(usize, Instruction)>::empty());
        assert(acc[acc.len() - 2] == acc[0]);
        assert(acc.take(acc.len() - 2) == front);
        if no_action(m) {
            assert(ins_settle(front) == front);
            assert(ins_settle(acc) == ins_settle(front));
        } else {
            assert(ins_settle(front.push((acc[0].0, m))) == front.push((acc[0].0, m)));
            assert(ins_settle(acc) == ins_settle(front.push((acc[0].0, m))));
        }
    } else {
        assert(acc.len() == 1);
        assert(ins_settle(acc) == acc);
    }
}

proof fn lemma_push_ids(table: OTable, p: isize, id: usize, i: Instruction, b: int)
    requires
        table_ids(table, b),
        b < id,
    ensures
        table_ids(table_push(table, p, id, i), id as int),
{
    lemma_opos_bounds(table, p);
    let q = opos(table, p);
    let n = table_push(table, p, id, i);
    assert forall|k: int| 0 <= k < table.len() implies ids_ok(#[trigger] table[k].1, id as int) by {
        assert(ids_ok(table[k].1, b));
    }
    if q < table.len() && table[q].0 == p {
        let l = table[q].1;
        assert(ids_ok(l, b));
        let l1 = l.push((id, i));
        assert(ids_ok(l1, id as int)) by {
            assert forall|a: int, c: int| 0 <= a < c < l1.len() implies l1[a].0 < l1[c].0 by {
                assert(l1[a] == l[a]);
                if c < l.len() {
                    assert(l1[c] == l[c]);
                }
            }
            assert forall|j: int| 0 <= j < l1.len() implies l1[j].0 <= id by {
                if j < l.len() {
                    assert(l1[j] == l[j]);
                }
            }
        }
        lemma_settle_ids(l1, id as int);
        assert forall|k: int| 0 <= k < n.len() implies ids_ok(#[trigger] n[k].1, id as int) by {
            if k != q {
                assert(n[k] == table[k]);
            }
        }
    } else {
        assert forall|k: int| 0 <= k < n.len() implies ids_ok(#[trigger] n[k].1, id as int) by {
            if k < q {
                assert(n[k] == table[k]);
            } else if k > q {
                assert(n[k] == table[k - 1]);
            }
        }
    }
}

proof fn lemma_push_small(table: OTable, p: isize, id: usize, i: Instruction)
    requires
        keys_ok(table, None),
        table_small(table),
        raw(i),
        !is_io(i),
    ensures
        table_small(table_push(table, p, id, i)),
{
    lemma_opos_bounds(table, p);
    let q = opos(table, p);
    let n = table_push(table, p, id, i);
    if q < table.len() && table[q].0 == p {
        let l = table[q].1;
        assert(entry_ok(table[q], None));
        assert(l.len() <= 1);
        lemma_settle_small(l, (id, i));
        assert forall|k: int| 0 <= k < n.len() implies (#[trigger] n[k]).1.len() <= 1 by {
            if k != q {
                assert(n[k] == table[k]);
            }
        }
    } else {
        assert forall|k: int| 0 <= k < n.len() implies (#[trigger] n[k]).1.len() <= 1 by {
            if k < q {
                assert(n[k] == table[k]);
            } else if k > q {
                assert(n[k] == table[k - 1]);
            }
        }
    }
}

/// A collected instruction run with the pointer moved by `p` does what the instruction placed
/// at offset `p` does.
pub(crate) proof fn lemma_placed_moved(i: Instruction, p: isize, u: Tape)
    requires
        raw(i),
    ensures
        run_instruction(i, moved(u, p as int)) == moved(run_instruction(placed(i, p), u), p as int),
{
    let a = run_instruction(i, moved(u, p as int));
    let b = moved(run_instruction(placed(i, p), u), p as int);
    assert(a.mem =~= b.mem);
    assert(a.out =~= b.out);
    assert(a =~= b);
}

/// The tape an original run has reached, in terms of what the run collected from `t0`.
pub open spec fn collected_tape(st: OState, t0: Tape) -> Tape {
    moved(instructions_tape(entry_instrs(collect(st.table)), t0), st.ptr as int)
}

/// Whether one more instruction of a run can be collected: moves keep the pointer within
/// `isize`, and reads and writes stay at the cell the run reads and writes.
pub open spec fn step_ok(i: Instruction, ptr: isize, io: Option<isize>) -> bool {
    match i {
        Instruction::PtrIncrement(n) => n <= isize::MAX && fits_isize(ptr + n),
        Instruction::PtrDecrement(n) => n <= isize::MAX && fits_isize(ptr - n),
        _ => is_io(i) ==> (io is None || io == Some(ptr)),
    }
}

proof fn lemma_state_step(st: OState, io: Option<isize>, i: Instruction, t0: Tape)
    requires
        state_ok(st, io),
        collectable(i),
        step_ok(i, st.ptr, io),
        st.count < usize::MAX,
    ensures
        state_ok(state_push(st, i), io_after(io, i, st.ptr)),
        state_push(st, i).count == st.count + 1,
        run_instruction(i, collected_tape(st, t0)) == collected_tape(state_push(st, i), t0),
{
    let st2 = state_push(st, i);
    let x0 = instructions_tape(entry_instrs(collect(st.table)), t0);
    match i {
        Instruction::PtrIncrement(n) => {
            assert(add_isize(st.ptr, n as isize) == st.ptr + n);
            assert(run_instruction(i, collected_tape(st, t0)) =~= collected_tape(st2, t0));
        },
        Instruction::PtrDecrement(n) => {
            assert(sub_isize(st.ptr, n as isize) == st.ptr - n);
            assert(run_instruction(i, collected_tape(st, t0)) =~= collected_tape(st2, t0));
        },
        _ => {
            let id = (st.count + 1) as usize;
            assert(raw(i));
            lemma_push_tape(st.table, io, st.ptr, id, i, t0);
            lemma_push_ids(st.table, st.ptr, id, i, st.count as int);
            if io_after(io, i, st.ptr) is None {
                lemma_push_small(st.table, st.ptr, id, i);
            }
            lemma_placed_moved(i, st.ptr, x0);
        },
    }
}

/// Numbers that never fall along a list.
pub open spec fn id_sorted(s: Seq<(usize, Instruction)>) -> bool {
    forall|i: int, j: int| 0 <= i < j < s.len() ==> s[i].0 <= s[j].0
}

/// Two instructions at one offset come in the order of their numbers.
pub open spec fn cell_order(s: Seq<(usize, Instruction)>) -> bool {
    forall|i: int, j: int| 0 <= i < j < s.len() && key_of(s[i].1) == key_of(s[j].1) ==> s[i].0 < s[j].0
}

/// Reads and writes all address one offset.
pub open spec fn io_one_cell(s: Seq<(usize, Instruction)>) -> bool {
    forall|i: int, j: int| 0 <= i < s.len() && 0 <= j < s.len() && is_io(s[i].1) && is_io(s[j].1)
        ==> key_of(s[i].1) == key_of(s[j].1)
}

pub open spec fn all_simple(s: Seq<(usize, Instruction)>) -> bool {
    forall|j: int| 0 <= j < s.len() ==> simple(#[trigger] s[j].1)
}

proof fn lemma_insert_all(s: Seq<(usize, Instruction)>, x: (usize, Instruction), pr: spec_fn((usize, Instruction)) -> bool)
    requires
        forall|j: int| 0 <= j < s.len() ==> pr(#[trigger] s[j]),
        pr(x),
    ensures
        insert_by_id(s, x).len() == s.len() + 1,
        forall|j: int| 0 <= j < insert_by_id(s, x).len() ==> pr(#[trigger] insert_by_id(s, x)[j]),
    decreases s.len(),
{
    if s.len() > 0 && x.0 >= s[0].0 {
        let r = s.drop_first();
        assert forall|j: int| 0 <= j < r.len() implies pr(#[trigger] r[j]) by {
            assert(r[j] == s[j + 1]);
        }
        lemma_insert_all(r, x, pr);
        let a = seq![s[0]] + insert_by_id(r, x);
        assert forall|j: int| 0 <= j < a.len() implies pr(#[trigger] a[j]) by {
            if j > 0 {
                assert(a[j] == insert_by_id(r, x)[j - 1]);
            }
        }
    } else if s.len() > 0 {
        let a = seq![x] + s;
        assert forall|j: int| 0 <= j < a.len() implies pr(#[trigger] a[j]) by {
            if j > 0 {
                assert(a[j] == s[j - 1]);
            }
        }
    }
}

proof fn lemma_sort_all(s: Seq<(usize, Instruction)>, pr: spec_fn((usize, Instruction)) -> bool)
    requires
        forall|j: int| 0 <= j < s.len() ==> pr(#[trigger] s[j]),
    ensures
        sort_by_id(s).len() == s.len(),
        forall|j: int| 0 <= j < sort_by_id(s).len() ==> pr(#[trigger] sort_by_id(s)[j]),
    decreases s.len(),
{
    if s.len() > 0 {
        let f = s.drop_last();
        assert forall|j: int| 0 <= j < f.len() implies pr(#[trigger] f[j]) by {
            assert(f[j] == s[j]);
        }
        lemma_sort_all(f, pr);
        assert(pr(s[s.len() - 1]));
        lemma_insert_all(sort_by_id(f), s.last(), pr);
    }
}

proof fn lemma_insert_sorted(s: Seq<(usize, Instruction)>, x: (usize, Instruction))
    requires
        id_sorted(s),
    ensures
        id_sorted(insert_by_id(s, x)),
    decreases s.len(),
{
    if s.len() > 0 {
        if x.0 < s[0].0 {
            let a = seq![x] + s;
            assert forall|i: int, j: int| 0 <= i < j < a.len() implies a[i].0 <= a[j].0 by {
                assert(a[j] == s[j - 1]);
                if i > 0 {
                    assert(a[i] == s[i - 1]);
                } else {
                    assert(s[0].0 <= s[j - 1].0 || j - 1 == 0);
                }
            }
        } else {
            let r = s.drop_first();
            assert(id_sorted(r)) by {
                assert forall|i: int, j: int| 0 <= i < j < r.len() implies r[i].0 <= r[j].0 by {
                    assert(r[i] == s[i + 1] && r[j] == s[j + 1]);
                }
            }
            lemma_insert_sorted(r, x);
            let s0 = s[0].0;
            let pr = |e: (usize, Instruction)| s0 <= e.0;
            assert forall|j: int| 0 <= j < r.len() implies pr(#[trigger] r[j]) by {
                assert(r[j] == s[j + 1]);
            }
            lemma_insert_all(r, x, pr);
            let ins = insert_by_id(r, x);
            let a = seq![s[0]] + ins;
            assert forall|i: int, j: int| 0 <= i < j < a.len() implies a[i].0 <= a[j].0 by {
                assert(a[j] == ins[j - 1]);
                assert(pr(ins[j - 1]));
                if i > 0 {
                    assert(a[i] == ins[i - 1]);
                }
            }
        }
    }
}

proof fn lemma_entry_instrs_front(e: (usize, Instruction), s: Seq<(usize, Instruction)>)
    ensures
        entry_instrs(seq![e] + s) == seq![e.1] + entry_instrs(s),
{
    assert(entry_instrs(seq![e] + s) =~= seq![e.1] + entry_instrs(s));
}

/// Inserting by number runs as appending does, when everything inserted in front of runs
/// at another offset and does not read or write when the inserted one does.
proof fn lemma_insert_tape(s: Seq<(usize, Instruction)>, x: (usize, Instruction), t: Tape)
    requires
        id_sorted(s),
        all_simple(s),
        simple(x.1),
        forall|j: int| 0 <= j < s.len() && s[j].0 > x.0 ==> key_of((#[trigger] s[j]).1) != key_of(x.1)
            && !(is_io(s[j].1) && is_io(x.1)),
    ensures
        instructions_tape(entry_instrs(insert_by_id(s, x)), t) == instructions_tape(entry_instrs(s.push(x)), t),
    decreases s.len(),
{
    lemma_entry_instrs_push(s, x);
    if s.len() == 0 {
        assert(insert_by_id(s, x) =~= s.push(x));
    } else if x.0 < s[0].0 {
        let e = entry_instrs(s);
        assert forall|j: int| 0 <= j < e.len() implies simple(#[trigger] e[j]) && key_of(e[j]) != key_of(x.1)
            && !(is_io(x.1) && is_io(e[j])) by {
            assert(s[0].0 <= s[j].0 || j == 0);
            assert(e[j] == s[j].1);
        }
        lemma_commute_past(e, x.1, t);
        lemma_entry_instrs_front(x, s);
    } else {
        let r = s.drop_first();
        let s0 = s[0];
        assert(id_sorted(r)) by {
            assert forall|i: int, j: int| 0 <= i < j < r.len() implies r[i].0 <= r[j].0 by {
                assert(r[i] == s[i + 1] && r[j] == s[j + 1]);
            }
        }
        assert forall|j: int| 0 <= j < r.len() && r[j].0 > x.0 implies key_of((#[trigger] r[j]).1) != key_of(x.1)
            && !(is_io(r[j].1) && is_io(x.1)) by {
            assert(r[j] == s[j + 1]);
        }
        assert(all_simple(r)) by {
            assert forall|j: int| 0 <= j < r.len() implies simple(#[trigger] r[j].1) by {
                assert(r[j] == s[j + 1]);
            }
        }
        let t1 = run_instruction(s0.1, t);
        lemma_insert_tape(r, x, t1);
        let ins = insert_by_id(r, x);
        lemma_entry_instrs_front(s0, ins);
        lemma_instructions_front(s0.1, entry_instrs(ins), t);
        assert(s.push(x) =~= seq![s0] + r.push(x));
        lemma_entry_instrs_front(s0, r.push(x));
        lemma_instructions_front(s0.1, entry_instrs(r.push(x)), t);
    }
}

/// Putting the collected instructions in the order of their numbers keeps what they do,
/// where instructions at one offset already come in that order and all reads and writes
/// address one offset.
proof fn lemma_sort_tape(s: Seq<(usize, Instruction)>, t: Tape)
    requires
        all_simple(s),
        cell_order(s),
        io_one_cell(s),
    ensures
        id_sorted(sort_by_id(s)),
        instructions_tape(entry_instrs(sort_by_id(s)), t) == instructions_tape(entry_instrs(s), t),
    decreases s.len(),
{
    if s.len() > 0 {
        let f = s.drop_last();
        let x = s.last();
        assert(all_simple(f) && cell_order(f) && io_one_cell(f)) by {
            assert forall|j: int| 0 <= j < f.len() implies simple(#[trigger] f[j].1) by {
                assert(f[j] == s[j]);
            }
            assert forall|i: int, j: int| 0 <= i < j < f.len() && key_of(f[i].1) == key_of(f[j].1) implies f[i].0 < f[j].0 by {
                assert(f[i] == s[i] && f[j] == s[j]);
            }
            assert forall|i: int, j: int| 0 <= i < f.len() && 0 <= j < f.len() && is_io(f[i].1) && is_io(f[j].1)
                implies key_of(f[i].1) == key_of(f[j].1) by {
                assert(f[i] == s[i] && f[j] == s[j]);
            }
        }
        lemma_sort_tape(f, t);
        let pr = |e: (usize, Instruction)| simple(e.1) && (key_of(e.1) == key_of(x.1) ==> e.0 < x.0)
            && (is_io(e.1) && is_io(x.1) ==> key_of(e.1) == key_of(x.1));
        assert forall|j: int| 0 <= j < f.len() implies pr(#[trigger] f[j]) by {
            assert(f[j] == s[j]);
            assert(x == s[s.len() - 1]);
        }
        lemma_sort_all(f, pr);
        let srt = sort_by_id(f);
        assert forall|j: int| 0 <= j < srt.len() && srt[j].0 > x.0 implies key_of((#[trigger] srt[j]).1) != key_of(x.1)
            && !(is_io(srt[j].1) && is_io(x.1)) by {
            assert(pr(srt[j]));
        }
        assert(all_simple(srt)) by {
            assert forall|j: int| 0 <= j < srt.len() implies simple(#[trigger] srt[j].1) by {
                assert(pr(srt[j]));
            }
        }
        assert(simple(s[s.len() - 1].1));
        lemma_insert_tape(srt, x, t);
        lemma_insert_sorted(srt, x);
        lemma_entry_instrs_push(srt, x);
        lemma_entry_instrs_push(f, x);
        assert(s =~= f.push(x));
        let es = entry_instrs(srt);
        assert(es.push(x.1).drop_last() =~= es);
        let ef = entry_instrs(f);
        assert(ef.push(x.1).drop_last() =~= ef);
    }
}

/// What the collected instructions of a well-formed table are like: simple, at their entry's
/// offset, in the order of their numbers at each offset, and reading or writing only at `io`.
proof fn lemma_collect_props(t: OTable, io: Option<isize>, b: int)
    requires
        keys_ok(t, io),
        table_ids(t, b),
    ensures
        all_simple(collect(t)),
        cell_order(collect(t)),
        forall|j: int| 0 <= j < collect(t).len() && is_io((#[trigger] collect(t)[j]).1)
            ==> io == Some(key_of(collect(t)[j].1) as isize),
        t.len() > 0 ==> forall|j: int| 0 <= j < collect(t).len() ==> key_of((#[trigger] collect(t)[j]).1) <= t.last().0,
    decreases t.len(),
{
    if t.len() > 0 {
        let front = t.drop_last();
        let e = t.last();
        assert(keys_ok(front, io)) by {
            assert forall|k: int| 0 <= k < front.len() implies entry_ok(#[trigger] front[k], io) by {
                assert(front[k] == t[k]);
            }
        }
        assert(table_ids(front, b)) by {
            assert forall|k: int| 0 <= k < front.len() implies ids_ok(#[trigger] front[k].1, b) by {
                assert(front[k] == t[k]);
            }
        }
        lemma_collect_props(front, io, b);
        let cf = collect(front);
        let pl = place_list(e.0, e.1);
        let c = collect(t);
        assert(c == cf + pl);
        assert(entry_ok(t[t.len() - 1], io));
        assert(ids_ok(t[t.len() - 1].1, b));
        assert forall|j: int| cf.len() <= j < c.len() implies #[trigger] c[j] == (e.1[j - cf.len()].0, placed(e.1[j - cf.len()].1, e.0))
            && raw(e.1[j - cf.len()].1) && key_of(c[j].1) == e.0 by {
            assert(c[j] == pl[j - cf.len()]);
        }
        assert forall|j: int| 0 <= j < cf.len() implies #[trigger] c[j] == cf[j] && key_of(c[j].1) < e.0 by {
            assert(c[j] == cf[j]);
            assert(front.last() == t[t.len() - 2]);
        }
        assert forall|j: int| 0 <= j < c.len() implies simple(#[trigger] c[j].1) by {
            if j >= cf.len() {
                assert(c[j] == (e.1[j - cf.len()].0, placed(e.1[j - cf.len()].1, e.0)));
            } else {
                assert(c[j] == cf[j]);
            }
        }
        assert forall|i: int, j: int| 0 <= i < j < c.len() && key_of(c[i].1) == key_of(c[j].1) implies c[i].0 < c[j].0 by {
            if j < cf.len() {
                assert(c[i] == cf[i] && c[j] == cf[j]);
            } else if i >= cf.len() {
                assert(c[i] == (e.1[i - cf.len()].0, placed(e.1[i - cf.len()].1, e.0)));
                assert(c[j] == (e.1[j - cf.len()].0, placed(e.1[j - cf.len()].1, e.0)));
            } else {
                assert(key_of(c[i].1) < e.0);
            }
        }
        assert forall|j: int| 0 <= j < c.len() && is_io((#[trigger] c[j]).1) implies io == Some(key_of(c[j].1) as isize) by {
            if j >= cf.len() {
                let k = j - cf.len();
                assert(c[j] == (e.1[k].0, placed(e.1[k].1, e.0)));
                assert(raw(e.1[k].1) && (is_io(e.1[k].1) ==> io == Some(e.0)));
            } else {
                assert(c[j] == cf[j]);
            }
        }
        assert forall|j: int| 0 <= j < c.len() implies key_of((#[trigger] c[j]).1) <= t.last().0 by {
            if j < cf.len() {
                assert(key_of(c[j].1) < e.0);
            }
        }
    }
}

/// A run written back does what the original run did.
proof fn lemma_into_model_runs(st: OState, io: Option<isize>, t0: Tape, f: nat)
    requires
        state_ok(st, io),
    ensures
        run_nods(into_model(st), t0, f) == Some(collected_tape(st, t0)),
{
    let c = collect(st.table);
    lemma_collect_props(st.table, io, st.count as int);
    assert(io_one_cell(c)) by {
        assert forall|i: int, j: int| 0 <= i < c.len() && 0 <= j < c.len() && is_io(c[i].1) && is_io(c[j].1)
            implies key_of(c[i].1) == key_of(c[j].1) by {
            assert(io == Some(key_of(c[i].1) as isize));
            assert(io == Some(key_of(c[j].1) as isize));
            assert(simple(c[i].1) && simple(c[j].1));
        }
    }
    lemma_sort_tape(c, t0);
    let srt = sort_by_id(c);
    let body = srt.map_values(|e: (usize, Instruction)| NodModel::Instruction(e.1));
    assert(body =~= instrs(entry_instrs(srt)));
    lemma_instrs_runs(entry_instrs(srt), t0, f);
    let u = instructions_tape(entry_instrs(srt), t0);
    lemma_run_nods_append(body, move_nodes(st.ptr), t0, f);
    lemma_move_nodes_runs(st.ptr, u, f);
}

/// The instructions of nodes that are all instructions.
pub open spec fn node_instrs(ns: Seq<NodModel>) -> Seq<Instruction> {
    ns.map_values(|n: NodModel| n->Instruction_0)
}

/// Nodes without loops.
pub open spec fn no_loops(ns: Seq<NodModel>) -> bool {
    forall|k: int| 0 <= k < ns.len() ==> (#[trigger] ns[k]) is Instruction
}

/// Whether the top level of the nodes reads or writes the current cell.
pub open spec fn any_io(ns: Seq<NodModel>) -> bool
    decreases ns.len(),
{
    if ns.len() == 0 {
        false
    } else {
        (ns[0] matches NodModel::Instruction(i) && io_here(i)) || any_io(ns.drop_first())
    }
}

/// The collected state after the instructions at the front of the nodes.
pub open spec fn run_state(ns: Seq<NodModel>, st: OState) -> OState
    decreases ns.len(),
{
    if ns.len() == 0 {
        st
    } else {
        match ns[0] {
            NodModel::Instruction(i) => run_state(ns.drop_first(), state_push(st, i)),
            NodModel::Loop(_) => st,
        }
    }
}

/// A loop whose body the offset pass writes as multiplications, and whose counter steps up
/// by one each round (`[+>+<]`): there the pass adds the counter where the loop adds its
/// negation, so such loops are left out of what the pass keeps.
pub open spec fn counts_up(body: Seq<NodModel>) -> bool {
    let st = run_state(body, empty_state());
    &&& no_loops(body)
    &&& !any_io(body)
    &&& loop_shape(st, false, false, true)
    &&& st.table[opos(st.table, 0)].1[0].1 == Instruction::Add(0, Value::Const(1))
}

/// The pointer offset after one more instruction of a run.
pub open spec fn next_ptr(i: Instruction, ptr: isize) -> isize {
    match i {
        Instruction::PtrIncrement(n) => add_isize(ptr, n as isize),
        Instruction::PtrDecrement(n) => sub_isize(ptr, n as isize),
        _ => ptr,
    }
}

/// The nodes on which the offset pass keeps what they do, walked from a run whose pointer
/// offset is `ptr` and which reads and writes at `io`: within each run (the instructions
/// between loops) the pointer offsets stay within `isize` and all reads and writes address
/// one cell, no loop counts its counter up, and no list of nodes is as long as `usize::MAX`.
pub open spec fn offset_safe(ns: Seq<NodModel>, ptr: isize, io: Option<isize>) -> bool
    decreases ns,
{
    if ns.len() == 0 {
        true
    } else {
        match ns[0] {
            NodModel::Loop(body) => body.len() < usize::MAX && !counts_up(body) && offset_safe(body, 0, None)
                && offset_safe(ns.drop_first(), 0, None),
            NodModel::Instruction(i) => step_ok(i, ptr, io)
                && offset_safe(ns.drop_first(), next_ptr(i, ptr), io_after(io, i, ptr)),
        }
    }
}

proof fn lemma_all_collectable_front(ns: Seq<NodModel>)
    requires
        ns.len() > 0,
        all_collectable(ns),
    ensures
        nod_collectable(ns[0]),
        all_collectable(ns.drop_first()),
    decreases ns.len(),
{
    if ns.len() == 1 {
        assert(ns.drop_first() =~= Seq::<NodModel>::empty());
        assert(ns.drop_last() =~= Seq::<NodModel>::empty());
    } else {
        lemma_all_collectable_front(ns.drop_last());
        assert(ns.drop_last()[0] == ns[0]);
        assert(ns.drop_first().drop_last() =~= ns.drop_last().drop_first());
        assert(ns.drop_first().last() == ns.last());
    }
}

proof fn lemma_fold_with_loop(ns: Seq<NodModel>, st: OState, hio: bool, il: bool)
    ensures
        oo_fold(ns, st, true, hio, il).1,
    decreases ns,
{
    if ns.len() > 0 {
        match ns[0] {
            NodModel::Loop(_) => lemma_fold_with_loop(ns.drop_first(), empty_state(), hio, il),
            NodModel::Instruction(i) => lemma_fold_with_loop(ns.drop_first(), state_push(st, i), hio || io_here(i), il),
        }
    }
}

/// When the pass writes a run as a counting loop, the run had no loop, and the loop's
/// instructions come from the state the run collected.
proof fn lemma_fold_counting(ns: Seq<NodModel>, st: OState, hio: bool, il: bool)
    requires
        !oo_fold(ns, st, false, hio, il).1,
    ensures
        no_loops(ns),
        loop_shape(run_state(ns, st), false, hio || any_io(ns), il),
        oo_fold(ns, st, false, hio, il).0 == loop_model(run_state(ns, st).table),
    decreases ns.len(),
{
    if ns.len() > 0 {
        match ns[0] {
            NodModel::Loop(_) => {
                lemma_fold_with_loop(ns.drop_first(), empty_state(), hio, il);
            },
            NodModel::Instruction(i) => {
                let rest = ns.drop_first();
                lemma_fold_counting(rest, state_push(st, i), hio || io_here(i), il);
                assert forall|k: int| 0 <= k < ns.len() implies (#[trigger] ns[k]) is Instruction by {
                    if k > 0 {
                        assert(ns[k] == rest[k - 1]);
                    }
                }
            },
        }
    }
}

proof fn lemma_collected_empty(t: Tape)
    ensures
        collected_tape(empty_state(), t) == t,
{
    assert(collect(empty_state().table) =~= Seq::<(usize, Instruction)>::empty());
    assert(entry_instrs(collect(empty_state().table)) =~= Seq::<Instruction>::empty());
    assert(collected_tape(empty_state(), t) =~= t);
}

/// A run without loops does, from the tape its collected state stands for, what the state
/// it ends in stands for.
proof fn lemma_run_instrs(ns: Seq<NodModel>, st: OState, io: Option<isize>, t0: Tape)
    requires
        no_loops(ns),
        all_collectable(ns),
        offset_safe(ns, st.ptr, io),
        state_ok(st, io),
        st.count + ns.len() < usize::MAX,
    ensures
        instructions_tape(node_instrs(ns), collected_tape(st, t0)) == collected_tape(run_state(ns, st), t0),
        (io is None && !any_io(ns)) ==> state_ok(run_state(ns, st), None),
    decreases ns.len(),
{
    if ns.len() == 0 {
        assert(node_instrs(ns) =~= Seq::<Instruction>::empty());
    } else {
        assert(ns[0] is Instruction);
        let i = ns[0]->Instruction_0;
        let rest = ns.drop_first();
        lemma_all_collectable_front(ns);
        lemma_state_step(st, io, i, t0);
        let st2 = state_push(st, i);
        assert(st2.ptr == next_ptr(i, st.ptr));
        assert(no_loops(rest)) by {
            assert forall|k: int| 0 <= k < rest.len() implies (#[trigger] rest[k]) is Instruction by {
                assert(rest[k] == ns[k + 1]);
            }
        }
        lemma_run_instrs(rest, st2, io_after(io, i, st.ptr), t0);
        assert(node_instrs(ns) =~= seq![i] + node_instrs(rest));
        lemma_instructions_front(i, node_instrs(rest), collected_tape(st, t0));
    }
}

pub open spec fn delta(i: Instruction) -> int {
    match i {
        Instruction::Add(_, Value::Const(c)) => c as int,
        Instruction::Sub(_, Value::Const(c)) => -(c as int),
        _ => 0,
    }
}

/// What one round of the table's instructions adds to the cell at offset `k`.
pub open spec fn entry_delta(t: OTable, k: int) -> int
    decreases t.len(),
{
    if t.len() == 0 {
        0
    } else if t.last().0 == k {
        if t.last().1.len() == 1 { delta(t.last().1[0].1) } else { 0 }
    } else {
        entry_delta(t.drop_last(), k)
    }
}

/// A table of changes by constants only, at most one per offset, with offsets in order.
pub open spec fn change_table(t: OTable) -> bool {
    &&& keys_ok(t, None)
    &&& table_small(t)
}

proof fn lemma_change_table_front(t: OTable)
    requires
        t.len() > 0,
        change_table(t),
    ensures
        change_table(t.drop_last()),
        entry_ok(t.last(), None),
        t.last().1.len() <= 1,
        forall|k: int| 0 <= k < t.len() - 1 ==> #[trigger] t[k].0 < t.last().0,
{
    let f = t.drop_last();
    assert forall|k: int| 0 <= k < f.len() implies entry_ok(#[trigger] f[k], None) && f[k].1.len() <= 1 by {
        assert(f[k] == t[k]);
    }
    assert(entry_ok(t[t.len() - 1], None));
    assert(t[t.len() - 1].1.len() <= 1);
}

proof fn lemma_delta_above(t: OTable, k: int)
    requires
        forall|j: int| 0 <= j < t.len() ==> #[trigger] t[j].0 < k,
    ensures
        entry_delta(t, k) == 0,
    decreases t.len(),
{
    if t.len() > 0 {
        let f = t.drop_last();
        assert(t[t.len() - 1].0 < k);
        assert forall|j: int| 0 <= j < f.len() implies #[trigger] f[j].0 < k by {
            assert(f[j] == t[j]);
        }
        lemma_delta_above(f, k);
    }
}

proof fn lemma_delta_at(t: OTable, q: int)
    requires
        change_table(t),
        0 <= q < t.len(),
        t[q].1.len() == 1,
    ensures
        entry_delta(t, t[q].0 as int) == delta(t[q].1[0].1),
    decreases t.len(),
{
    if q < t.len() - 1 {
        lemma_change_table_front(t);
        assert(t.drop_last()[q] == t[q]);
        lemma_delta_at(t.drop_last(), q);
    }
}

/// One round of a table of changes adds each entry's change to its cell.
proof fn lemma_table_round(t: OTable, u: Tape)
    requires
        change_table(t),
    ensures
        instructions_tape(entry_instrs(collect(t)), u) == round_tape(|k: int| entry_delta(t, k), u),
    decreases t.len(),
{
    let d = |k: int| entry_delta(t, k);
    if t.len() == 0 {
        assert(entry_instrs(collect(t)) =~= Seq::<Instruction>::empty());
        assert forall|i: int| #[trigger] (round_tape(d, u).mem)(i) == (u.mem)(i) by {
            lemma_wrap_byte((u.mem)(i));
        }
        assert(round_tape(d, u).mem =~= u.mem);
        assert(round_tape(d, u) =~= u);
    } else {
        lemma_change_table_front(t);
        let f = t.drop_last();
        let e = t.last();
        let df = |k: int| entry_delta(f, k);
        lemma_table_round(f, u);
        let r = round_tape(df, u);
        let pl = place_list(e.0, e.1);
        lemma_entry_instrs_add(collect(f), pl);
        lemma_instructions_append(entry_instrs(collect(f)), entry_instrs(pl), u);
        assert forall|j: int| 0 <= j < f.len() implies #[trigger] f[j].0 < e.0 by {
            assert(f[j] == t[j]);
        }
        lemma_delta_above(f, e.0 as int);
        if e.1.len() == 0 {
            assert(entry_instrs(pl) =~= Seq::<Instruction>::empty());
            assert forall|i: int| #[trigger] (round_tape(d, u).mem)(i) == (r.mem)(i) by {}
            assert(round_tape(d, u).mem =~= r.mem);
            assert(round_tape(d, u) =~= r);
        } else {
            let x = e.1[0].1;
            assert(raw(x) && !is_io(x));
            let y = placed(x, e.0);
            assert(entry_instrs(pl) =~= seq![y]);
            assert(seq![y].drop_last() =~= Seq::<Instruction>::empty());
            assert(instructions_tape(seq![y].drop_last(), r) == r);
            assert(seq![y].last() == y);
            assert(instructions_tape(seq![y], r) == run_instruction(y, r));
            let a = run_instruction(y, r);
            let at = u.ptr + e.0;
            lemma_wrap_byte((u.mem)(at));
            assert forall|i: int| #[trigger] (round_tape(d, u).mem)(i) == (a.mem)(i) by {
                if i == at {
                    assert(cell(r, e.0 as int) == (u.mem)(at));
                }
            }
            assert(round_tape(d, u).mem =~= a.mem);
            assert(round_tape(d, u) =~= a);
        }
    }
}

/// The multiplications a counting loop is written as, before the counter is cleared: every
/// cell but the counter gains the counter times its change per round.
pub open spec fn mul_tape(t: OTable, u: Tape) -> Tape {
    Tape {
        mem: |i: int| if i == u.ptr { (u.mem)(i) } else { wrap((u.mem)(i) + cell(u, 0) * entry_delta(t, i - u.ptr)) },
        ..u
    }
}

/// The counter entry steps by one.
pub open spec fn counter_ok(t: OTable) -> bool {
    forall|k: int| 0 <= k < t.len() && (#[trigger] t[k]).0 == 0 ==> t[k].1.len() == 1
        && (t[k].1[0].1 == Instruction::Sub(0, Value::Const(1)) || t[k].1[0].1 == Instruction::Add(0, Value::Const(1)))
}

pub(crate) proof fn lemma_single_node(n: NodModel, u: Tape, f: nat)
    ensures
        run_nods(seq![n], u, f) == run_nod(n, u, f),
{
    assert(seq![n] =~= Seq::<NodModel>::empty().push(n));
    lemma_run_nods_push(Seq::<NodModel>::empty(), n, u, f);
}

#[verifier::spinoff_prover]
#[verifier::rlimit(40)]
proof fn lemma_mul_runs(t: OTable, u: Tape, f: nat)
    requires
        change_table(t),
        counter_ok(t),
    ensures
        run_nods(mul_table(t), u, f) == Some(mul_tape(t, u)),
    decreases t.len(),
{
    let c0 = cell(u, 0) as int;
    if t.len() == 0 {
        assert forall|i: int| #[trigger] (mul_tape(t, u).mem)(i) == (u.mem)(i) by {
            lemma_wrap_byte((u.mem)(i));
            assert(c0 * 0 == 0);
        }
        assert(mul_tape(t, u).mem =~= u.mem);
        assert(mul_tape(t, u) =~= u);
    } else {
        lemma_change_table_front(t);
        let f0 = t.drop_last();
        let e = t.last();
        assert(counter_ok(f0)) by {
            assert forall|k: int| 0 <= k < f0.len() && (#[trigger] f0[k]).0 == 0 implies f0[k].1.len() == 1
                && (f0[k].1[0].1 == Instruction::Sub(0, Value::Const(1)) || f0[k].1[0].1 == Instruction::Add(0, Value::Const(1))) by {
                assert(f0[k] == t[k]);
            }
        }
        lemma_mul_runs(f0, u, f);
        let m = mul_tape(f0, u);
        let ml = mul_list(e.0, e.1);
        lemma_run_nods_append(mul_table(f0), ml, u, f);
        assert forall|j: int| 0 <= j < f0.len() implies #[trigger] f0[j].0 < e.0 by {
            assert(f0[j] == t[j]);
        }
        lemma_delta_above(f0, e.0 as int);
        if e.1.len() == 0 {
            assert(ml =~= Seq::<NodModel>::empty());
            assert(mul_tape(t, u).mem =~= m.mem);
            assert(mul_tape(t, u) =~= m);
        } else {
            let x = e.1[0].1;
            assert(raw(x) && !is_io(x));
            assert(e.1.drop_last() =~= Seq::<(usize, Instruction)>::empty());
            assert(mul_list(e.0, e.1.drop_last()) =~= Seq::<NodModel>::empty());
            assert(e.1.last() == e.1[0]);
            assert(ml == mul_list(e.0, e.1.drop_last()) + mul_entry(e.0, x));
            assert(ml =~= mul_entry(e.0, x));
            if e.0 == 0 {
                assert(t[t.len() - 1].0 == 0);
                assert(mul_entry(e.0, x) =~= Seq::<NodModel>::empty());
                assert forall|i: int| #[trigger] (mul_tape(t, u).mem)(i) == (m.mem)(i) by {}
                assert(mul_tape(t, u).mem =~= m.mem);
                assert(mul_tape(t, u) =~= m);
            } else {
                let y = mul_entry(e.0, x)[0]->Instruction_0;
                assert(mul_entry(e.0, x) =~= seq![NodModel::Instruction(y)]);
                lemma_single_node(NodModel::Instruction(y), m, f);
                let a = run_instruction(y, m);
                let at = u.ptr + e.0;
                lemma_wrap_byte((u.mem)(at));
                assert(c0 * 0 == 0);
                assert(cell(m, e.0 as int) == (u.mem)(at));
                assert(cell(m, 0) == cell(u, 0));
                let dx = delta(x);
                assert(entry_delta(t, e.0 as int) == dx);
                lemma_scale(c0, dx);
                assert(c0 * (-dx) == -(c0 * dx)) by (nonlinear_arith);
                assert forall|i: int| #[trigger] (mul_tape(t, u).mem)(i) == (a.mem)(i) by {
                    if i != at && i != u.ptr {
                        assert(entry_delta(t, i - u.ptr) == entry_delta(f0, i - u.ptr));
                    }
                    if i == at {
                        match x {
                            Instruction::Add(_, Value::Const(v)) => {
                                assert(dx == v);
                            },
                            Instruction::Sub(_, Value::Const(v)) => {
                                assert(dx == -v);
                                assert(c0 * (-(v as int)) == -(c0 * v)) by (nonlinear_arith);
                            },
                            _ => {},
                        }
                    }
                }
                assert(mul_tape(t, u).mem =~= a.mem);
                assert(mul_tape(t, u) =~= a);
            }
        }
    }
}

proof fn lemma_loop_model_runs(t: OTable, q: int, u: Tape, f: nat)
    requires
        change_table(t),
        counter_ok(t),
        0 <= q < t.len(),
        t[q].0 == 0,
        t[q].1.len() == 1,
        t[q].1[0].1 == Instruction::Sub(0, Value::Const(1)),
    ensures
        run_nods(loop_model(t), u, f) == Some(rounds_tape(|k: int| entry_delta(t, k), u, cell(u, 0) as int)),
{
    let c0 = cell(u, 0) as int;
    lemma_mul_runs(t, u, f);
    let m = mul_tape(t, u);
    let clear = NodModel::Instruction(Instruction::SetValue(0, Value::Const(0)));
    lemma_run_nods_push(mul_table(t), clear, u, f);
    lemma_delta_at(t, q);
    lemma_scale(c0, -1);
    let a = run_instruction(Instruction::SetValue(0, Value::Const(0)), m);
    let r = rounds_tape(|k: int| entry_delta(t, k), u, c0);
    assert(wrap(0) == 0);
    assert forall|i: int| #[trigger] (r.mem)(i) == (a.mem)(i) by {
        if i == u.ptr {
            assert(entry_delta(t, i - u.ptr) == -1);
        }
    }
    assert(r.mem =~= a.mem);
    assert(r =~= a);
}

proof fn lemma_prefix_some(a: Seq<NodModel>, b: Seq<NodModel>, t: Tape, f: nat)
    requires
        run_nods(a + b, t, f) is Some,
    ensures
        run_nods(a, t, f) is Some,
    decreases b.len(),
{
    if b.len() == 0 {
        assert(a + b =~= a);
    } else {
        assert((a + b).drop_last() =~= a + b.drop_last());
        lemma_prefix_some(a, b.drop_last(), t, f);
    }
}

pub(crate) proof fn lemma_run_nods_front(ns: Seq<NodModel>, t: Tape, f: nat)
    requires
        ns.len() > 0,
        run_nods(ns, t, f) is Some,
    ensures
        run_nod(ns[0], t, f) is Some,
        run_nods(ns, t, f) == run_nods(ns.drop_first(), run_nod(ns[0], t, f)->0, f),
{
    let a = seq![ns[0]];
    let b = ns.drop_first();
    assert(ns =~= a + b);
    lemma_prefix_some(a, b, t, f);
    lemma_single_node(ns[0], t, f);
    lemma_run_nods_append(a, b, t, f);
}

/// A loop whose body the pass writes as multiplications does what the multiplications do.
proof fn lemma_counting_runs(body: Seq<NodModel>, u: Tape, f: nat)
    requires
        all_collectable(body),
        offset_safe(body, 0, None),
        body.len() < usize::MAX,
        !counts_up(body),
        !oo_fold(body, empty_state(), false, false, true).1,
        run_nod(NodModel::Loop(body), u, f) is Some,
    ensures
        run_nods(oo_fold(body, empty_state(), false, false, true).0, u, f) == run_nod(NodModel::Loop(body), u, f),
{
    lemma_fold_counting(body, empty_state(), false, true);
    let st = run_state(body, empty_state());
    let tb = st.table;
    let q = opos(tb, 0);
    lemma_opos_bounds(tb, 0);
    assert(!any_io(body));
    assert(tb[q].1[0].1 == Instruction::Sub(0, Value::Const(1)));
    let s = node_instrs(body);
    let d = |k: int| entry_delta(tb, k);
    assert(state_ok(empty_state(), None)) by {
        assert(empty_state().table.len() == 0);
    }
    assert forall|v: Tape| #[trigger] instructions_tape(s, v) == round_tape(d, v) by {
        lemma_run_instrs(body, empty_state(), None, v);
        lemma_collected_empty(v);
        assert(collected_tape(st, v) =~= instructions_tape(entry_instrs(collect(tb)), v));
        lemma_table_round(tb, v);
    }
    lemma_run_instrs(body, empty_state(), None, u);
    assert(change_table(tb));
    lemma_delta_at(tb, q);
    assert(instrs(s) =~= body) by {
        assert forall|k: int| 0 <= k < body.len() implies #[trigger] instrs(s)[k] == body[k] by {
            assert(body[k] is Instruction);
        }
    }
    assert(counter_ok(tb)) by {
        assert forall|k: int| 0 <= k < tb.len() && (#[trigger] tb[k]).0 == 0 implies tb[k].1.len() == 1
            && (tb[k].1[0].1 == Instruction::Sub(0, Value::Const(1)) || tb[k].1[0].1 == Instruction::Add(0, Value::Const(1))) by {
            if k < q {
                assert(tb[k].0 < tb[q].0);
            } else if k > q {
                assert(tb[q].0 < tb[k].0);
            }
        }
    }
    lemma_nod_counting_loop(s, d, u, f);
    lemma_loop_model_runs(tb, q, u, f);
}

/// The offset pass over the nodes left of a run keeps what they do, from the tape the run's
/// collected state stands for.
proof fn lemma_fold_runs(ns: Seq<NodModel>, st: OState, io: Option<isize>, hl: bool, hio: bool, il: bool, t0: Tape, f: nat)
    requires
        all_collectable(ns),
        offset_safe(ns, st.ptr, io),
        state_ok(st, io),
        st.count + ns.len() < usize::MAX,
        run_nods(ns, collected_tape(st, t0), f) is Some,
        oo_fold(ns, st, hl, hio, il).1,
    ensures
        run_nods(oo_fold(ns, st, hl, hio, il).0, t0, f) == run_nods(ns, collected_tape(st, t0), f),
    decreases f, ns,
{
    let u = collected_tape(st, t0);
    if ns.len() == 0 {
        lemma_into_model_runs(st, io, t0, f);
        assert(oo_fold(ns, st, hl, hio, il) == finish(st, hl, hio, il));
        assert(run_nods(ns, u, f) == Some(u));
    } else {
        lemma_all_collectable_front(ns);
        lemma_run_nods_front(ns, u, f);
        let rest = ns.drop_first();
        match ns[0] {
            NodModel::Instruction(i) => {
                lemma_state_step(st, io, i, t0);
                assert(run_nod(ns[0], u, f) == Some(run_instruction(i, u)));
                assert(oo_fold(ns, st, hl, hio, il) == oo_fold(rest, state_push(st, i), hl, hio || io_here(i), il));
                lemma_fold_runs(rest, state_push(st, i), io_after(io, i, st.ptr), hl, hio || io_here(i), il, t0, f);
            },
            NodModel::Loop(body) => {
                let v = run_nod(ns[0], u, f)->0;
                let sub = oo_fold(body, empty_state(), false, false, true);
                let x = if sub.1 { seq![NodModel::Loop(sub.0)] } else { sub.0 };
                assert(decreases_to!(ns => ns[0]));
                assert(decreases_to!(ns[0] => body));
                if sub.1 {
                    lemma_single_node(NodModel::Loop(sub.0), u, f);
                    lemma_loop_runs(body, u, f);
                } else {
                    lemma_counting_runs(body, u, f);
                }
                assert(run_nods(x, u, f) == Some(v));
                let r = oo_fold(rest, empty_state(), true, hio, il);
                lemma_collected_empty(v);
                assert(state_ok(empty_state(), None)) by {
                    assert(empty_state().table.len() == 0);
                }
                lemma_fold_runs(rest, empty_state(), None, true, hio, il, v, f);
                lemma_into_model_runs(st, io, t0, f);
                let piece = into_model(st) + x;
                lemma_run_nods_append(into_model(st), x, t0, f);
                lemma_run_nods_append(piece, r.0, t0, f);
                assert(oo_items(body, true) == sub);
                assert(oo_fold(ns, st, hl, hio, il) == (piece + r.0, r.1));
            },
        }
    }
}

/// A loop whose body the pass keeps as a loop runs as the original loop does.
proof fn lemma_loop_runs(body: Seq<NodModel>, u: Tape, f: nat)
    requires
        all_collectable(body),
        offset_safe(body, 0, None),
        body.len() < usize::MAX,
        oo_fold(body, empty_state(), false, false, true).1,
        run_nod(NodModel::Loop(body), u, f) is Some,
    ensures
        run_nod(NodModel::Loop(oo_fold(body, empty_state(), false, false, true).0), u, f)
            == run_nod(NodModel::Loop(body), u, f),
    decreases f, body,
{
    if cell(u, 0) != 0 {
        let g = (f - 1) as nat;
        let u2 = run_nods(body, u, g)->0;
        lemma_collected_empty(u);
        assert(state_ok(empty_state(), None)) by {
            assert(empty_state().table.len() == 0);
        }
        lemma_fold_runs(body, empty_state(), None, false, false, true, u, g);
        lemma_loop_runs(body, u2, g);
    }
}

/// The offset pass keeps what a program does: where the original finishes, the nodes the pass
/// gives finish on the same tape, with the same output, with the same fuel. This holds of
/// every tree of collectable instructions on which `offset_safe` holds: no loop counts its
/// counter up (the pass writes `[+>+<]` as an addition of the counter, which the loop
/// subtracts), the reads and writes of each run between loops address one cell (the pass
/// writes `.>.<.` as two writes of the first cell and one of the second), and pointer
/// offsets within a run stay within `isize`.
pub proof fn lemma_offset_opt_keeps_runs(ns: Seq<NodModel>, t: Tape, f: nat)
    requires
        all_collectable(ns),
        offset_safe(ns, 0, None),
        ns.len() < usize::MAX,
        run_nods(ns, t, f) is Some,
    ensures
        run_nods(oo_items(ns, false).0, t, f) == run_nods(ns, t, f),
{
    if !oo_fold(ns, empty_state(), false, false, false).1 {
        lemma_fold_counting(ns, empty_state(), false, false);
    }
    lemma_collected_empty(t);
    assert(state_ok(empty_state(), None)) by {
        assert(empty_state().table.len() == 0);
    }
    lemma_fold_runs(ns, empty_state(), None, false, false, false, t, f);
}

/// The node optimizer keeps what a program does: the offset pass, then pointer moves folded
/// into offsets, finish where the original finishes, on the same tape. Beside what the offset
/// pass needs, the moves held back and the offsets formed by the second pass stay within
/// `isize`.
pub proof fn lemma_node_optimize_keeps_runs(ns: Seq<NodModel>, t: Tape, f: nat)
    requires
        all_collectable(ns),
        offset_safe(ns, 0, None),
        ns.len() < usize::MAX,
        moves_fit(oo_items(ns, false).0),
        run_nods(ns, t, f) is Some,
    ensures
        run_nods(merge_offsets(oo_items(ns, false).0), t, f) == run_nods(ns, t, f),
{
    lemma_offset_opt_keeps_runs(ns, t, f);
    lemma_merge_offsets_keeps_runs(oo_items(ns, false).0, t, f);
}

/// Every tree that parsing gives is made of instructions the offset pass collects, so the
/// pass (and with it the node optimizer) takes every parsed program.
pub proof fn lemma_parsed_collectable(ns: Seq<Nod>)
    requires
        nods_raw(ns),
    ensures
        all_collectable(nods_model(ns)),
    decreases ns,
{
    if ns.len() > 0 {
        let front = ns.drop_last();
        let last = ns.last();
        lemma_parsed_collectable(front);
        assert(nods_model(ns).drop_last() =~= nods_model(front));
        assert(nods_model(ns).last() == nod_model(last));
        assert(nod_raw(last));
        match last {
            Nod::Loop(body) => {
                assert(decreases_to!(ns => last));
                lemma_parsed_collectable(body@);
                assert(nod_model(last) == NodModel::Loop(nods_model(body@)));
            },
            Nod::Instruction(i) => {
                assert(instruction_token(i) is Some);
                let t = choose|t: Token| token_instruction(t) == Some(i);
                assert(token_instruction(t) == Some(i));
                assert(collectable(i));
            },
        }
        assert(nod_collectable(nod_model(last)));
        lemma_nods_model_len(ns);
        assert(all_collectable(nods_model(ns)));
    }
}

} // verus!
