//! What the offset pass of the new-node optimizer keeps of a run: the instructions it collects
//! run by run and writes back offset by offset do what the run did, as long as the run writes
//! its cells in order of offset, each write writes once and no write fuses with the one before.

use vstd::prelude::*;
use crate::instruction::{Instruction, Value, Tape, run_instruction, mergeable, merge_rule, no_action,
    merge_changes_effect, lemma_merge_keeps_effect};
use crate::ir_semantics::moved;
use crate::nod_passes::{fits_isize, lemma_run_nods_append, lemma_move_nodes_runs};
use crate::nod_rewrites::{instructions_tape, lemma_instrs_runs};
use crate::nod_semantics::{run_nod, run_nods};
use crate::offset_semantics::{simple, key_of, is_io, raw, lemma_core, lemma_run_nods_front, lemma_single_node};
use crate::optimize::{placed, move_nodes, add_isize, sub_isize};
use crate::optimize_new_node::{NTable, key_pos, ntable_push, nplaced, nflush, no_fold, no_items, settle_plain,
    flushable, nod_flushable, all_flushable, instrs};
use crate::parse::NodModel;

verus! {

/// An instruction this pass collects and keeps: a change of the current cell by a constant other
/// than zero, or one write of it.
pub open spec fn nraw(i: Instruction) -> bool {
    match i {
        Instruction::Add(0, Value::Const(c)) | Instruction::Sub(0, Value::Const(c)) => c != 0,
        Instruction::Output(0, n) => n == 1,
        _ => false,
    }
}

/// The collected instructions, each at its offset, entry after entry.
pub open spec fn nflat(t: NTable) -> Seq<Instruction>
    decreases t.len(),
{
    if t.len() == 0 {
        Seq::empty()
    } else {
        nflat(t.drop_last()) + t.last().1.map_values(|i: Instruction| placed(i, t.last().0))
    }
}

/// The instructions of one offset: kept ones, no two writes in a row, and a write only at or
/// before the last offset written (`io`).
pub open spec fn nentry_ok(e: (isize, Seq<Instruction>), io: Option<isize>) -> bool {
    &&& forall|j: int| 0 <= j < e.1.len() ==> nraw(#[trigger] e.1[j]) && (is_io(e.1[j]) ==> io is Some && e.0 <= io->0)
    &&& forall|j: int| 0 <= j < e.1.len() - 1 ==> !(#[trigger] e.1[j] is Output && e.1[j + 1] is Output)
}

pub open spec fn ntable_ok(t: NTable, io: Option<isize>) -> bool {
    &&& forall|i: int, j: int| 0 <= i < j < t.len() ==> t[i].0 < t[j].0
    &&& forall|k: int| 0 <= k < t.len() ==> nentry_ok(#[trigger] t[k], io)
}

/// A write at `p` does not fuse with what the entry of `p` ends with.
pub open spec fn write_ok(t: NTable, p: isize) -> bool {
    let q = key_pos(t, p);
    (0 <= q < t.len() && t[q].0 == p && t[q].1.len() > 0) ==> !(t[q].1.last() is Output)
}

/// The nodes on which this pass keeps what they do, walked with the pass's pointer offset and
/// collected instructions, and the last offset written: no instruction does nothing, each write
/// writes once, at an offset no lower than the writes before it in its run, and does not fuse
/// with a write before it, and pointer offsets within a run stay within `isize`.
pub open spec fn flush_safe(ns: Seq<NodModel>, ptr: isize, t: NTable, io: Option<isize>) -> bool
    decreases ns,
{
    if ns.len() == 0 {
        true
    } else {
        let rest = ns.drop_first();
        match ns[0] {
            NodModel::Loop(body) => flush_safe(body, 0, Seq::empty(), None) && flush_safe(rest, 0, Seq::empty(), None),
            NodModel::Instruction(Instruction::PtrIncrement(n)) => n <= isize::MAX && fits_isize(ptr + n)
                && flush_safe(rest, add_isize(ptr, n as isize), t, io),
            NodModel::Instruction(Instruction::PtrDecrement(n)) => n <= isize::MAX && fits_isize(ptr - n)
                && flush_safe(rest, sub_isize(ptr, n as isize), t, io),
            NodModel::Instruction(i) => !no_action(i)
                && (i is Output ==> i == Instruction::Output(0, 1) && (io matches Some(m) ==> m <= ptr) && write_ok(t, ptr))
                && flush_safe(rest, ptr, ntable_push(t, ptr, i), if i is Output { Some(ptr) } else { io }),
        }
    }
}

/// The tape a run has reached, in terms of what the pass collected from `t0`.
pub open spec fn ntape(t: NTable, ptr: isize, t0: Tape) -> Tape {
    moved(instructions_tape(nflat(t), t0), ptr as int)
}

proof fn lemma_key_pos_bounds(t: NTable, key: isize)
    ensures
        0 <= key_pos(t, key) <= t.len(),
        forall|j: int| 0 <= j < key_pos(t, key) ==> t[j].0 < key,
        key_pos(t, key) < t.len() ==> t[key_pos(t, key)].0 >= key,
    decreases t.len(),
{
    if t.len() > 0 && t[0].0 < key {
        lemma_key_pos_bounds(t.drop_first(), key);
        assert forall|j: int| 0 <= j < key_pos(t, key) implies t[j].0 < key by {
            if j > 0 {
                assert(t[j] == t.drop_first()[j - 1]);
            }
        }
        if key_pos(t, key) < t.len() {
            assert(t[key_pos(t, key)] == t.drop_first()[key_pos(t, key) - 1]);
        }
    }
}

proof fn lemma_nflat_split(t: NTable, q: int)
    requires
        0 <= q <= t.len(),
    ensures
        nflat(t) == nflat(t.take(q)) + nflat(t.skip(q)),
    decreases t.len(),
{
    if q == t.len() {
        assert(t.take(q) =~= t);
        assert(t.skip(q) =~= Seq::<(isize, Seq<Instruction>)>::empty());
        assert(nflat(t) + Seq::<Instruction>::empty() =~= nflat(t));
    } else {
        lemma_nflat_split(t.drop_last(), q);
        assert(t.drop_last().take(q) =~= t.take(q));
        assert(t.skip(q).drop_last() =~= t.drop_last().skip(q));
        assert(t.skip(q).last() == t.last());
    }
}

proof fn lemma_nflat_one(e: (isize, Seq<Instruction>))
    ensures
        nflat(seq![e]) == e.1.map_values(|i: Instruction| placed(i, e.0)),
{
    let z = seq![e].drop_last();
    assert(z =~= Seq::<(isize, Seq<Instruction>)>::empty());
    assert(nflat(z) =~= Seq::<Instruction>::empty());
    assert(seq![e].last() == e);
    assert(nflat(seq![e]) == nflat(z) + e.1.map_values(|i: Instruction| placed(i, e.0)));
    assert(Seq::<Instruction>::empty() + e.1.map_values(|i: Instruction| placed(i, e.0))
        =~= e.1.map_values(|i: Instruction| placed(i, e.0)));
}

pub open spec fn place_all(key: isize, l: Seq<Instruction>) -> Seq<Instruction> {
    l.map_values(|i: Instruction| placed(i, key))
}

/// Fusing the instructions of one offset keeps what they do there, when no two writes stand
/// in a row.
proof fn lemma_nsettle(key: isize, acc: Seq<Instruction>, io_allowed: bool, t: Tape)
    requires
        forall|j: int| 0 <= j < acc.len() ==> nraw(#[trigger] acc[j]) && (is_io(acc[j]) ==> io_allowed),
        forall|j: int| 0 <= j < acc.len() - 1 ==> !(#[trigger] acc[j] is Output && acc[j + 1] is Output),
    ensures
        forall|j: int| 0 <= j < settle_plain(acc).len() ==> nraw(#[trigger] settle_plain(acc)[j])
            && (is_io(settle_plain(acc)[j]) ==> io_allowed),
        forall|j: int| 0 <= j < settle_plain(acc).len() - 1
            ==> !(#[trigger] settle_plain(acc)[j] is Output && settle_plain(acc)[j + 1] is Output),
        instructions_tape(place_all(key, settle_plain(acc)), t) == instructions_tape(place_all(key, acc), t),
    decreases acc.len(),
{
    if acc.len() >= 2 && mergeable(acc[acc.len() - 2], acc.last()) && merge_rule(acc[acc.len() - 2], acc.last()) is Some {
        let a = acc[acc.len() - 2];
        let b = acc.last();
        let m = merge_rule(a, b)->0;
        let front = acc.take(acc.len() - 2);
        assert(nraw(a) && nraw(b));
        assert(!(a is Output && b is Output));
        assert(!(a is Output) && !(b is Output));
        assert forall|j: int| 0 <= j < front.len() implies nraw(#[trigger] front[j]) && (is_io(front[j]) ==> io_allowed) by {
            assert(front[j] == acc[j]);
        }
        assert forall|j: int| 0 <= j < front.len() - 1 implies !(#[trigger] front[j] is Output && front[j + 1] is Output) by {
            assert(front[j] == acc[j] && front[j + 1] == acc[j + 1]);
        }
        let pa = placed(a, key);
        let pb = placed(b, key);
        let pm = placed(m, key);
        assert(merge_rule(pa, pb) == Some(pm));
        assert(mergeable(pa, pb));
        assert(!merge_changes_effect(pa, pb));
        let e1 = place_all(key, front);
        let t0 = instructions_tape(e1, t);
        lemma_merge_keeps_effect(pa, pb, t0);
        assert(place_all(key, acc) =~= e1.push(pa).push(pb));
        assert(e1.push(pa).drop_last() =~= e1);
        assert(e1.push(pa).push(pb).drop_last() =~= e1.push(pa));
        assert(instructions_tape(e1.push(pa), t) == run_instruction(pa, t0));
        assert(instructions_tape(place_all(key, acc), t) == run_instruction(pb, run_instruction(pa, t0)));
        if no_action(m) {
            crate::instruction::lemma_no_action(pm, t0);
            lemma_nsettle(key, front, io_allowed, t);
        } else {
            let f2 = front.push(m);
            assert(nraw(m) && !(m is Output));
            assert forall|j: int| 0 <= j < f2.len() implies nraw(#[trigger] f2[j]) && (is_io(f2[j]) ==> io_allowed) by {
                if j < front.len() {
                    assert(f2[j] == front[j]);
                }
            }
            assert forall|j: int| 0 <= j < f2.len() - 1 implies !(#[trigger] f2[j] is Output && f2[j + 1] is Output) by {
                assert(f2[j] == acc[j]);
                if j + 1 < front.len() {
                    assert(f2[j + 1] == acc[j + 1]);
                }
            }
            assert(place_all(key, f2) =~= e1.push(pm));
            assert(e1.push(pm).drop_last() =~= e1);
            assert(instructions_tape(e1.push(pm), t) == run_instruction(pm, t0));
            lemma_nsettle(key, f2, io_allowed, t);
        }
    }
}

/// The instructions of entries at offsets above `p` are simple, at their entry's offset, and
/// write only at or before the last offset written.
proof fn lemma_nflat_keys(r: NTable, p: isize, io: Option<isize>)
    requires
        forall|k: int| 0 <= k < r.len() ==> r[k].0 > p && nentry_ok(#[trigger] r[k], io),
    ensures
        forall|j: int| 0 <= j < nflat(r).len() ==> simple(#[trigger] nflat(r)[j]) && key_of(nflat(r)[j]) > p
            && (is_io(nflat(r)[j]) ==> io is Some && key_of(nflat(r)[j]) <= io->0),
    decreases r.len(),
{
    if r.len() > 0 {
        let front = r.drop_last();
        assert forall|k: int| 0 <= k < front.len() implies front[k].0 > p && nentry_ok(#[trigger] front[k], io) by {
            assert(front[k] == r[k]);
        }
        lemma_nflat_keys(front, p, io);
        let e = r.last();
        assert(e.0 > p && nentry_ok(r[r.len() - 1], io));
        let a = nflat(front);
        let b = place_all(e.0, e.1);
        assert(nflat(r) == a + b);
        assert forall|j: int| 0 <= j < (a + b).len() implies simple(#[trigger] (a + b)[j]) && key_of((a + b)[j]) > p
            && (is_io((a + b)[j]) ==> io is Some && key_of((a + b)[j]) <= io->0) by {
            if j >= a.len() {
                let k = j - a.len();
                assert((a + b)[j] == placed(e.1[k], e.0));
                assert(nraw(e.1[k]) && (is_io(e.1[k]) ==> io is Some && e.0 <= io->0));
            }
        }
    }
}

proof fn lemma_nsplice(c1: Seq<Instruction>, old_mid: Seq<Instruction>, new_mid: Seq<Instruction>,
    cr: Seq<Instruction>, x: Instruction, t: Tape)
    requires
        simple(x),
        instructions_tape(new_mid, instructions_tape(c1, t)) == instructions_tape(old_mid.push(x), instructions_tape(c1, t)),
        forall|j: int| 0 <= j < cr.len() ==> simple(#[trigger] cr[j]) && key_of(cr[j]) != key_of(x)
            && !(is_io(x) && is_io(cr[j])),
    ensures
        instructions_tape(c1 + new_mid + cr, t) == run_instruction(x, instructions_tape(c1 + old_mid + cr, t)),
{
    lemma_core(c1, old_mid, new_mid, cr, x, t);
}

#[verifier::spinoff_prover]
#[verifier::rlimit(40)]
proof fn lemma_npush_found(table: NTable, io: Option<isize>, p: isize, i: Instruction, t: Tape)
    requires
        ntable_ok(table, io),
        nraw(i),
        is_io(i) ==> (io matches Some(m) ==> m <= p) && write_ok(table, p),
        key_pos(table, p) < table.len(),
        table[key_pos(table, p)].0 == p,
    ensures
        ntable_ok(ntable_push(table, p, i), if is_io(i) { Some(p) } else { io }),
        instructions_tape(nflat(ntable_push(table, p, i)), t) == run_instruction(placed(i, p), instructions_tape(nflat(table), t)),
{
    lemma_key_pos_bounds(table, p);
    let q = key_pos(table, p);
    let io2 = if is_io(i) { Some(p) } else { io };
    let x = placed(i, p);
    let n = ntable_push(table, p, i);
    lemma_nflat_split(table, q);
    lemma_nflat_split(n, q);
    let c1 = nflat(table.take(q));
    assert(n.take(q) =~= table.take(q));
    assert forall|k: int| 0 <= k < table.len() implies nentry_ok(#[trigger] table[k], io2) by {
        assert(nentry_ok(table[k], io));
    }
    let l = table[q].1;
    let l1 = l.push(i);
    let l2 = settle_plain(l1);
    assert(n == table.update(q, (p, l2)));
    assert(nentry_ok(table[q], io));
    assert forall|j: int| 0 <= j < l1.len() implies nraw(#[trigger] l1[j]) && (is_io(l1[j]) ==> io2 is Some && p <= io2->0) by {
        if j < l.len() {
            assert(l1[j] == l[j]);
        }
    }
    assert forall|j: int| 0 <= j < l1.len() - 1 implies !(#[trigger] l1[j] is Output && l1[j + 1] is Output) by {
        assert(l1[j] == l[j]);
        if j + 1 < l.len() {
            assert(l1[j + 1] == l[j + 1]);
        } else {
            assert(l.last() == l[j]);
        }
    }
    lemma_nsettle(p, l1, io2 is Some && p <= io2->0, instructions_tape(c1, t));
    assert(ntable_ok(n, io2)) by {
        assert forall|k: int| 0 <= k < n.len() implies nentry_ok(#[trigger] n[k], io2) by {
            if k != q {
                assert(n[k] == table[k]);
            }
        }
    }
    let rest = table.skip(q + 1);
    assert(table.skip(q) =~= seq![table[q]] + rest);
    assert(n.skip(q) =~= seq![(p, l2)] + rest);
    lemma_nflat_split(seq![table[q]] + rest, 1);
    lemma_nflat_split(seq![(p, l2)] + rest, 1);
    assert((seq![table[q]] + rest).take(1) =~= seq![table[q]]);
    assert((seq![table[q]] + rest).skip(1) =~= rest);
    assert((seq![(p, l2)] + rest).take(1) =~= seq![(p, l2)]);
    assert((seq![(p, l2)] + rest).skip(1) =~= rest);
    lemma_nflat_one(table[q]);
    lemma_nflat_one((p, l2));
    assert forall|k: int| 0 <= k < rest.len() implies rest[k].0 > p && nentry_ok(#[trigger] rest[k], io) by {
        assert(rest[k] == table[q + 1 + k]);
        assert(table[q].0 < table[q + 1 + k].0);
    }
    lemma_nflat_keys(rest, p, io);
    let cr = nflat(rest);
    assert forall|j: int| 0 <= j < cr.len() implies simple(#[trigger] cr[j]) && key_of(cr[j]) != key_of(x)
        && !(is_io(x) && is_io(cr[j])) by {
        assert(key_of(x) == p);
    }
    assert(place_all(p, l1) =~= place_all(p, l).push(x));
    assert(nflat(table) =~= c1 + place_all(p, l) + cr);
    assert(nflat(n) =~= c1 + place_all(p, l2) + cr);
    lemma_nsplice(c1, place_all(p, l), place_all(p, l2), cr, x, t);
}

#[verifier::spinoff_prover]
#[verifier::rlimit(40)]
proof fn lemma_npush_new(table: NTable, io: Option<isize>, p: isize, i: Instruction, t: Tape)
    requires
        ntable_ok(table, io),
        nraw(i),
        is_io(i) ==> (io matches Some(m) ==> m <= p) && write_ok(table, p),
        !(key_pos(table, p) < table.len() && table[key_pos(table, p)].0 == p),
    ensures
        ntable_ok(ntable_push(table, p, i), if is_io(i) { Some(p) } else { io }),
        instructions_tape(nflat(ntable_push(table, p, i)), t) == run_instruction(placed(i, p), instructions_tape(nflat(table), t)),
{
    lemma_key_pos_bounds(table, p);
    let q = key_pos(table, p);
    let io2 = if is_io(i) { Some(p) } else { io };
    let x = placed(i, p);
    let n = ntable_push(table, p, i);
    lemma_nflat_split(table, q);
    lemma_nflat_split(n, q);
    let c1 = nflat(table.take(q));
    assert(n.take(q) =~= table.take(q));
    assert forall|k: int| 0 <= k < table.len() implies nentry_ok(#[trigger] table[k], io2) by {
        assert(nentry_ok(table[k], io));
    }
    let e = (p, seq![i]);
    assert(n == table.insert(q, e));
    assert(ntable_ok(n, io2)) by {
        assert forall|a: int, b: int| 0 <= a < b < n.len() implies n[a].0 < n[b].0 by {
            if b < q {
            } else if b == q {
            } else if a == q {
                assert(n[b] == table[b - 1]);
                assert(table[q].0 <= table[b - 1].0 || b - 1 == q);
            } else if a < q {
                assert(n[b] == table[b - 1]);
                assert(table[q].0 <= table[b - 1].0 || b - 1 == q);
            } else {
                assert(n[a] == table[a - 1] && n[b] == table[b - 1]);
            }
        }
        assert forall|k: int| 0 <= k < n.len() implies nentry_ok(#[trigger] n[k], io2) by {
            if k < q {
                assert(n[k] == table[k]);
            } else if k > q {
                assert(n[k] == table[k - 1]);
            }
        }
    }
    let rest = table.skip(q);
    assert(n.skip(q) =~= seq![e] + rest);
    lemma_nflat_split(seq![e] + rest, 1);
    assert((seq![e] + rest).take(1) =~= seq![e]);
    assert((seq![e] + rest).skip(1) =~= rest);
    lemma_nflat_one(e);
    assert forall|k: int| 0 <= k < rest.len() implies rest[k].0 > p && nentry_ok(#[trigger] rest[k], io) by {
        assert(rest[k] == table[q + k]);
        if k > 0 {
            assert(table[q].0 < table[q + k].0);
        }
    }
    lemma_nflat_keys(rest, p, io);
    let cr = nflat(rest);
    assert forall|j: int| 0 <= j < cr.len() implies simple(#[trigger] cr[j]) && key_of(cr[j]) != key_of(x)
        && !(is_io(x) && is_io(cr[j])) by {
        assert(key_of(x) == p);
    }
    let em = Seq::<Instruction>::empty();
    assert(place_all(p, seq![i]) =~= em.push(x));
    assert(nflat(table) =~= c1 + em + cr);
    assert(nflat(n) =~= c1 + place_all(p, seq![i]) + cr);
    lemma_nsplice(c1, em, place_all(p, seq![i]), cr, x, t);
}

/// Collecting one more instruction does to the collected tape what running it at its offset does.
proof fn lemma_npush(table: NTable, io: Option<isize>, p: isize, i: Instruction, t: Tape)
    requires
        ntable_ok(table, io),
        nraw(i),
        is_io(i) ==> (io matches Some(m) ==> m <= p) && write_ok(table, p),
    ensures
        ntable_ok(ntable_push(table, p, i), if is_io(i) { Some(p) } else { io }),
        instructions_tape(nflat(ntable_push(table, p, i)), t) == run_instruction(placed(i, p), instructions_tape(nflat(table), t)),
{
    if key_pos(table, p) < table.len() && table[key_pos(table, p)].0 == p {
        lemma_npush_found(table, io, p, i, t);
    } else {
        lemma_npush_new(table, io, p, i, t);
    }
}

proof fn lemma_nflush_instrs(t: NTable, io: Option<isize>)
    requires
        forall|k: int| 0 <= k < t.len() ==> nentry_ok(#[trigger] t[k], io),
    ensures
        nflush(t) == instrs(nflat(t)),
    decreases t.len(),
{
    if t.len() > 0 {
        let f = t.drop_last();
        let e = t.last();
        assert forall|k: int| 0 <= k < f.len() implies nentry_ok(#[trigger] f[k], io) by {
            assert(f[k] == t[k]);
        }
        lemma_nflush_instrs(f, io);
        assert(nentry_ok(t[t.len() - 1], io));
        let a = e.1.map_values(|i: Instruction| NodModel::Instruction(nplaced(i, e.0)));
        assert forall|j: int| 0 <= j < a.len() implies #[trigger] a[j] == instrs(place_all(e.0, e.1))[j] by {
            assert(nraw(e.1[j]));
        }
        assert(a =~= instrs(place_all(e.0, e.1)));
        assert(instrs(nflat(f) + place_all(e.0, e.1)) =~= instrs(nflat(f)) + instrs(place_all(e.0, e.1)));
    }
}

proof fn lemma_nflush_runs(t: NTable, io: Option<isize>, ptr: isize, t0: Tape, f: nat)
    requires
        ntable_ok(t, io),
    ensures
        run_nods(nflush(t) + move_nodes(ptr), t0, f) == Some(ntape(t, ptr, t0)),
{
    lemma_nflush_instrs(t, io);
    lemma_instrs_runs(nflat(t), t0, f);
    let u = instructions_tape(nflat(t), t0);
    lemma_run_nods_append(nflush(t), move_nodes(ptr), t0, f);
    lemma_move_nodes_runs(ptr, u, f);
}

proof fn lemma_ntape_empty(t: Tape)
    ensures
        ntape(Seq::empty(), 0, t) == t,
{
    assert(nflat(Seq::<(isize, Seq<Instruction>)>::empty()) =~= Seq::<Instruction>::empty());
    assert(ntape(Seq::empty(), 0, t) =~= t);
}

proof fn lemma_all_flushable_front(ns: Seq<NodModel>)
    requires
        ns.len() > 0,
        all_flushable(ns),
    ensures
        nod_flushable(ns[0]),
        all_flushable(ns.drop_first()),
    decreases ns.len(),
{
    if ns.len() == 1 {
        assert(ns.drop_first() =~= Seq::<NodModel>::empty());
        assert(ns.drop_last() =~= Seq::<NodModel>::empty());
    } else {
        lemma_all_flushable_front(ns.drop_last());
        assert(ns.drop_last()[0] == ns[0]);
        assert(ns.drop_first().drop_last() =~= ns.drop_last().drop_first());
        assert(ns.drop_first().last() == ns.last());
    }
}

proof fn lemma_nfold_runs(ns: Seq<NodModel>, ptr: isize, t: NTable, io: Option<isize>, t0: Tape, f: nat)
    requires
        all_flushable(ns),
        flush_safe(ns, ptr, t, io),
        ntable_ok(t, io),
        run_nods(ns, ntape(t, ptr, t0), f) is Some,
    ensures
        run_nods(no_fold(ns, ptr, t), t0, f) == run_nods(ns, ntape(t, ptr, t0), f),
    decreases f, ns,
{
    let u = ntape(t, ptr, t0);
    if ns.len() == 0 {
        lemma_nflush_runs(t, io, ptr, t0, f);
    } else {
        lemma_all_flushable_front(ns);
        lemma_run_nods_front(ns, u, f);
        let rest = ns.drop_first();
        match ns[0] {
            NodModel::Loop(body) => {
                let v = run_nod(ns[0], u, f)->0;
                assert(decreases_to!(ns => ns[0]));
                assert(decreases_to!(ns[0] => body));
                lemma_nloop_runs(body, u, f);
                let lp = seq![NodModel::Loop(no_items(body))];
                lemma_single_node(NodModel::Loop(no_items(body)), u, f);
                lemma_ntape_empty(v);
                lemma_nfold_runs(rest, 0, Seq::empty(), None, v, f);
                lemma_nflush_runs(t, io, ptr, t0, f);
                let head = nflush(t) + move_nodes(ptr);
                lemma_run_nods_append(head, lp, t0, f);
                lemma_run_nods_append(head + lp, no_fold(rest, 0, Seq::empty()), t0, f);
                assert(no_fold(ns, ptr, t) == head + lp + no_fold(rest, 0, Seq::empty()));
            },
            NodModel::Instruction(i) => {
                assert(run_nod(ns[0], u, f) == Some(run_instruction(i, u)));
                match i {
                    Instruction::PtrIncrement(n) => {
                        assert(add_isize(ptr, n as isize) == ptr + n);
                        assert(run_instruction(i, u) =~= ntape(t, add_isize(ptr, n as isize), t0));
                        lemma_nfold_runs(rest, add_isize(ptr, n as isize), t, io, t0, f);
                    },
                    Instruction::PtrDecrement(n) => {
                        assert(sub_isize(ptr, n as isize) == ptr - n);
                        assert(run_instruction(i, u) =~= ntape(t, sub_isize(ptr, n as isize), t0));
                        lemma_nfold_runs(rest, sub_isize(ptr, n as isize), t, io, t0, f);
                    },
                    _ => {
                        assert(nraw(i));
                        assert(is_io(i) == (i is Output));
                        lemma_npush(t, io, ptr, i, t0);
                        crate::offset_semantics::lemma_placed_moved(i, ptr, instructions_tape(nflat(t), t0));
                        let io2 = if i is Output { Some(ptr) } else { io };
                        lemma_nfold_runs(rest, ptr, ntable_push(t, ptr, i), io2, t0, f);
                    },
                }
            },
        }
    }
}

proof fn lemma_nloop_runs(body: Seq<NodModel>, u: Tape, f: nat)
    requires
        all_flushable(body),
        flush_safe(body, 0, Seq::empty(), None),
        run_nod(NodModel::Loop(body), u, f) is Some,
    ensures
        run_nod(NodModel::Loop(no_items(body)), u, f) == run_nod(NodModel::Loop(body), u, f),
    decreases f, body,
{
    if crate::instruction::cell(u, 0) != 0 {
        let g = (f - 1) as nat;
        let u2 = run_nods(body, u, g)->0;
        lemma_ntape_empty(u);
        lemma_nfold_runs(body, 0, Seq::empty(), None, u, g);
        lemma_nloop_runs(body, u2, g);
    }
}

/// The offset pass of the new-node optimizer keeps what a program does where `flush_safe`
/// holds: where the original finishes, the nodes the pass gives finish on the same tape, with
/// the same output, with the same fuel. It fails where a run writes a cell after a cell at a
/// higher offset (`>.<.` writes the lower cell first), where two writes of a cell fuse
/// (`..` writes once), and where a write writes more than once.
pub proof fn lemma_flush_offsets_keeps_runs(ns: Seq<NodModel>, t: Tape, f: nat)
    requires
        all_flushable(ns),
        flush_safe(ns, 0, Seq::empty(), None),
        run_nods(ns, t, f) is Some,
    ensures
        run_nods(no_items(ns), t, f) == run_nods(ns, t, f),
{
    lemma_ntape_empty(t);
    lemma_nfold_runs(ns, 0, Seq::empty(), None, t, f);
}

} // verus!
